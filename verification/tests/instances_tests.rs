use orienteering::instances::InstanceReadError;

#[test]
fn expected_int_names_token_and_type() {
    let e = InstanceReadError::expected_int(String::from("abc"), "x coordinate");
    match e {
        InstanceReadError::InvalidToken { token, token_name, expected_type } => {
            assert_eq!(token, "abc");
            assert_eq!(token_name, "x coordinate");
            assert_eq!(expected_type, "integer");
        }
        _ => panic!("wrong variant"),
    }
}

#[test]
fn expected_float_names_token_and_type() {
    let e = InstanceReadError::expected_float(String::from("1.2.3"), "score");
    match e {
        InstanceReadError::InvalidToken { token, token_name, expected_type } => {
            assert_eq!(token, "1.2.3");
            assert_eq!(token_name, "score");
            assert_eq!(expected_type, "floating point number");
        }
        _ => panic!("wrong variant"),
    }
}
