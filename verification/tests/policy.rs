use terrabastard::policy::json::OneOrMany;

#[test]
fn one_or_many_mono_becomes_a_singleton() {
    let one: OneOrMany<String> = OneOrMany::Mono("sts:AssumeRole".to_string());
    assert_eq!(one.into_vec(), vec!["sts:AssumeRole".to_string()]);
}

#[test]
fn one_or_many_poly_keeps_its_elements() {
    let many: OneOrMany<String> = OneOrMany::Poly(vec![
        "ec2:StartInstances".to_string(),
        "ec2:StopInstances".to_string(),
    ]);
    assert_eq!(
        many.into_vec(),
        vec!["ec2:StartInstances".to_string(), "ec2:StopInstances".to_string()]
    );
}
