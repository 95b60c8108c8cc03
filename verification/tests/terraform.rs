use terrabastard::document::{Expr, ObjKey};
use terrabastard::terraform::{is_top_level, object_strings, parse, strings, ParseError, TopLevel};

fn s(x: &str) -> String {
    x.to_string()
}

const ROOT_TEXT: &str = r#"
                terraform {
                    backend "s3" {
                        bucket         = "bucky"
                        dynamodb_table = "terraform-state-lock"
                        region         = "eu-central-1"
                        key            = "my/state"
                        encrypt        = true
                    }
                }
                "#;

const NON_ROOT_TEXT: &str = r#"
                terraform {
                    backend "s3" {
                        smucket         = "bucky"
                    }
                }
            "#;

#[test]
fn parse_deserializes_a_terraform_root() {
    // not a top-level terraform file
    let tf = TopLevel::parse(NON_ROOT_TEXT);
    assert!(tf.is_err());
    // legit top-level terraform file
    let tf = TopLevel::parse(ROOT_TEXT).unwrap();
    let terrabastard::terraform::BackendConfig::S3(config) = tf.terraform.backend;
    assert_eq!(config.bucket, "bucky");
}

#[test]
fn is_top_level_terraform_works() {
    assert!(is_top_level(ROOT_TEXT));
    assert!(!is_top_level(NON_ROOT_TEXT));
}

#[test]
fn strings_uses_deep_object_addresses() {
    let obj = vec![(
        ObjKey::Ident(s("foo")),
        Expr::Object(vec![(ObjKey::Ident(s("bar")), Expr::Str(s("baz")))]),
    )];
    assert_eq!(object_strings(&obj), vec![(s("foo.bar"), s("baz"))]);
}

#[test]
fn parse_rejects_bad_syntax() {
    assert!(parse("resource {{{{").is_err());
    assert!(matches!(TopLevel::parse("resource {{{{"), Err(ParseError::Syntax)));
    assert!(!is_top_level("resource {{{{"));
}

#[test]
fn schema_failures_are_schema_errors() {
    // parses fine, but no terraform section at all
    assert!(matches!(TopLevel::parse("a = \"b\""), Err(ParseError::Schema)));
    // a backend of an unrecognized kind
    let other_backend = r#"
                terraform {
                    backend "gcs" {
                        bucket = "bucky"
                    }
                }
                "#;
    assert!(matches!(TopLevel::parse(other_backend), Err(ParseError::Schema)));
    // no bucket field
    assert!(matches!(TopLevel::parse(NON_ROOT_TEXT), Err(ParseError::Schema)));
    // two terraform sections
    let doubled = r#"
                terraform {
                    backend "s3" {
                        bucket = "a"
                    }
                }
                terraform {
                    backend "s3" {
                        bucket = "b"
                    }
                }
                "#;
    assert!(matches!(TopLevel::parse(doubled), Err(ParseError::Schema)));
}

#[test]
fn block_labels_join_into_the_address() {
    let doc = parse(
        r#"
        resource "thing" "s" {
            were = "weird"
        }
        "#,
    )
    .unwrap();
    assert_eq!(strings(&doc), vec![(s("resource.thing.s.were"), s("weird"))]);
}

#[test]
fn nested_maps_extend_the_address() {
    let doc = parse(
        r#"
        module "stuff" {
            in = {
                the = "wild"
                sanely = "repetitive"
            }
        }
        "#,
    )
    .unwrap();
    assert_eq!(
        strings(&doc),
        vec![
            (s("module.stuff.in.the"), s("wild")),
            (s("module.stuff.in.sanely"), s("repetitive")),
        ]
    );
}

#[test]
fn non_string_leaves_are_dropped() {
    let doc = parse(
        r#"
        module "stuff" {
            count = 3
            flag = true
            names = ["a", "b"]
            kept = "yes"
        }
        "#,
    )
    .unwrap();
    assert_eq!(strings(&doc), vec![(s("module.stuff.kept"), s("yes"))]);
}

#[test]
fn unlabelled_blocks_use_the_bare_identifier() {
    let doc = parse(
        r#"
        locals {
            region = "eu-west-2"
        }
        "#,
    )
    .unwrap();
    assert_eq!(strings(&doc), vec![(s("locals.region"), s("eu-west-2"))]);
}
