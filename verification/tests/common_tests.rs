use azurite::common::{parse_args, DataType, EnvironmentParameter, FileData};

#[test]
fn parse_arguments_invalid_usage() {
    let values: Vec<String> = vec!["executable path".to_string()];

    let value = parse_args(values.into_iter());
    assert!(value.is_err())
}

#[test]
fn parse_arguments_file_path() {
    let values: Vec<String> = vec![
        "executable path".to_string(),
        "/some/random/file/path".to_string(),
    ];

    let value = parse_args(values.into_iter());

    assert_eq!(value, Ok(("/some/random/file/path".to_string(), vec![],)));
}

#[test]
fn parse_arguments_file_path_with_environment() {
    let values: Vec<String> = vec![
        "executable path".to_string(),
        "/some/random/file/path".to_string(),
        "--hello-there".to_string(),
        "this will be ignored".to_string(),
        "--another-value=3".to_string(),
        "--another-another-value=hello".to_string(),
    ];

    let value = parse_args(values.into_iter());

    assert_eq!(
        value,
        Ok((
            "/some/random/file/path".to_string(),
            vec![
                EnvironmentParameter {
                    identifier: "hello-there".to_string(),
                    value: "1".to_string(),
                },
                EnvironmentParameter {
                    identifier: "another-value".to_string(),
                    value: "3".to_string(),
                },
                EnvironmentParameter {
                    identifier: "another-another-value".to_string(),
                    value: "hello".to_string(),
                },
            ]
        ))
    );
}

#[test]
fn parse_arguments_no_arguments_at_all() {
    let values: Vec<String> = vec![];
    let value = parse_args(values.into_iter());
    let message = value.unwrap_err();
    assert!(message.ends_with(" azurite %file name%"));
}

#[test]
fn parse_arguments_splits_at_first_equals() {
    let values: Vec<String> = vec![
        "exe".to_string(),
        "main.az".to_string(),
        "--a=b=c".to_string(),
        "--=x".to_string(),
        "--".to_string(),
        "-x".to_string(),
    ];
    let (file, params) = parse_args(values.into_iter()).unwrap();
    assert_eq!(file, "main.az");
    assert_eq!(
        params,
        vec![
            EnvironmentParameter { identifier: "a".to_string(), value: "b=c".to_string() },
            EnvironmentParameter { identifier: "".to_string(), value: "x".to_string() },
            EnvironmentParameter { identifier: "".to_string(), value: "1".to_string() },
        ]
    );
}

#[test]
fn file_data_strips_carriage_returns() {
    let file = FileData::new("a.az".to_string(), "let x = 1\r\nlet y = 2\r\n");
    assert_eq!(file.path, "a.az");
    assert_eq!(file.data, "let x = 1\nlet y = 2\n");
}

#[test]
fn file_data_keeps_other_text() {
    let file = FileData::new(String::new(), "héllo\twörld");
    assert_eq!(file.data, "héllo\twörld");
}

#[test]
fn data_type_bytes() {
    assert_eq!(DataType::Integer.into_byte_representation(), 0);
    assert_eq!(DataType::Float.into_byte_representation(), 1);
    assert_eq!(DataType::String.into_byte_representation(), 2);
    assert_eq!(DataType::Bool.into_byte_representation(), 3);
    assert_eq!(DataType::Struct("Point".to_string()).into_byte_representation(), 4);
    assert_eq!(DataType::from_byte_representation(3), Some(DataType::Bool));
    assert_eq!(DataType::from_byte_representation(4), None);
}

#[test]
fn data_type_names() {
    assert_eq!(DataType::from_string("int"), DataType::Integer);
    assert_eq!(DataType::from_string("float"), DataType::Float);
    assert_eq!(DataType::from_string("str"), DataType::String);
    assert_eq!(DataType::from_string("bool"), DataType::Bool);
    assert_eq!(DataType::from_string("()"), DataType::Empty);
    assert_eq!(DataType::from_string("Vec"), DataType::Struct("Vec".to_string()));
}

#[test]
fn data_type_sizes() {
    assert_eq!(DataType::Integer.size(), 8);
    assert_eq!(DataType::Float.size(), 8);
    assert_eq!(DataType::String.size(), usize::MAX);
    assert_eq!(DataType::Bool.size(), 1);
    assert_eq!(DataType::Struct("S".to_string()).size(), 0);
}

#[test]
fn default_gives_the_types_default() {
    let n: u32 = azurite::common::default();
    let b: bool = azurite::common::default();
    let v: Vec<u8> = azurite::common::default();
    assert_eq!(n, 0);
    assert!(!b);
    assert!(v.is_empty());
}
