use invokrum::rpc::{
    bounded_parser_message, bounded_request, check_envelope, decode_expected_lock, expected_lock_from,
    pack_file_path, pack_format, pack_source_rejection, parse_profile, validate_json_depth, PackFormat, RpcError,
    RpcErrorKind, EXIT_INPUT, EXIT_INTERNAL, EXIT_VALIDATION, MAX_JSON_DEPTH,
};
use invokrum::{PackRelativePath, SourceFailure, SourceFailureKind};

#[test]
fn error_kinds_map_to_codes_and_exit_statuses() {
    assert_eq!(RpcErrorKind::Request.code(), "request");
    assert_eq!(RpcErrorKind::Integrity.code(), "integrity");
    assert_eq!(RpcErrorKind::Request.exit_code(), 3);
    assert_eq!(RpcErrorKind::Input.exit_code(), EXIT_INPUT);
    assert_eq!(RpcErrorKind::Composition.exit_code(), 4);
    assert_eq!(RpcErrorKind::Validation.exit_code(), EXIT_VALIDATION);
    assert_eq!(RpcErrorKind::Internal.exit_code(), 7);
    assert_eq!(RpcErrorKind::Integrity.exit_code(), EXIT_INTERNAL);
    let error = RpcError::new(RpcErrorKind::Input, "boom");
    assert_eq!(error.kind, RpcErrorKind::Input);
    assert_eq!(error.message, "boom");
}

#[test]
fn request_size_is_bounded_and_nonempty() {
    assert_eq!(bounded_request(vec![1, 2, 3], 3).expect("within the limit"), vec![1, 2, 3]);
    let too_big = bounded_request(vec![0; 4], 3).expect_err("over the limit");
    assert_eq!(too_big.kind, RpcErrorKind::Request);
    assert_eq!(too_big.message, "request exceeds the configured byte limit");
    let empty = bounded_request(Vec::new(), 3).expect_err("empty");
    assert_eq!(empty.message, "request is empty");
}

#[test]
fn json_depth_counts_brackets_outside_strings() {
    assert!(validate_json_depth(b"[[[]]]", 3).is_ok());
    assert_eq!(
        validate_json_depth(b"[[[[]]]]", 3),
        Err("request exceeds the configured JSON depth limit")
    );
    assert!(validate_json_depth(b"{\"a\":\"[[[[[\"}", 1).is_ok());
    assert!(validate_json_depth(b"{\"a\":\"\\\"[[[[[\"}", 1).is_ok());
    assert!(validate_json_depth(b"[][][][]", 1).is_ok());
    assert!(validate_json_depth(b"]]]]{[", 1).is_err());
    let nested = "[".repeat(MAX_JSON_DEPTH) + &"]".repeat(MAX_JSON_DEPTH);
    assert!(validate_json_depth(nested.as_bytes(), MAX_JSON_DEPTH).is_ok());
    let deeper = "[".repeat(MAX_JSON_DEPTH + 1);
    assert!(validate_json_depth(deeper.as_bytes(), MAX_JSON_DEPTH).is_err());
}

#[test]
fn parser_messages_keep_the_first_256_characters() {
    assert_eq!(bounded_parser_message("short"), "short");
    let long = "\u{e9}".repeat(300);
    assert_eq!(bounded_parser_message(&long), "\u{e9}".repeat(256));
}

#[test]
fn envelope_checks_protocol_then_request_id() {
    assert!(check_envelope("invokrum.host/v1", "r-1").is_ok());
    let wrong = check_envelope("invokrum.host/v2", "").expect_err("wrong protocol");
    assert_eq!(wrong.kind, RpcErrorKind::Request);
    assert_eq!(wrong.message, "unsupported protocol `invokrum.host/v2`; expected `invokrum.host/v1`");
    let empty = check_envelope("invokrum.host/v1", "").expect_err("empty id");
    assert_eq!(empty.message, "request_id must contain between 1 and 128 bytes");
    assert!(check_envelope("invokrum.host/v1", &"x".repeat(128)).is_ok());
    assert!(check_envelope("invokrum.host/v1", &"\u{e9}".repeat(65)).is_err());
    assert!(check_envelope("invokrum.host/v1", &"\u{e9}".repeat(64)).is_ok());
}

#[test]
fn profiles_and_pack_names_are_validated() {
    assert_eq!(parse_profile("secure-review").expect("valid").as_str(), "secure-review");
    let invalid = parse_profile("bad id").expect_err("invalid");
    assert_eq!(invalid.kind, RpcErrorKind::Validation);
    assert_eq!(invalid.message, "profile identifier is invalid");
    assert_eq!(pack_file_path("pack.yaml").expect("valid").as_str(), "pack.yaml");
    let escape = pack_file_path("..").expect_err("parent");
    assert_eq!(escape.kind, RpcErrorKind::Input);
    assert_eq!(escape.message, "pack file name violates the portable path policy");
}

#[test]
fn pack_format_follows_extension_then_content() {
    assert_eq!(pack_format("json", "a: 1"), PackFormat::Json);
    assert_eq!(pack_format("JSON", "a: 1"), PackFormat::Json);
    assert_eq!(pack_format("Yml", "{}"), PackFormat::Yaml);
    assert_eq!(pack_format("yaml", "{}"), PackFormat::Yaml);
    assert_eq!(pack_format("", "  \n{\"a\":1}"), PackFormat::Json);
    assert_eq!(pack_format("txt", "a: 1"), PackFormat::Yaml);
    assert_eq!(pack_format("", ""), PackFormat::Yaml);
}

#[test]
fn expected_lock_is_canonical_base64_within_the_limit() {
    assert_eq!(decode_expected_lock("aGVsbG8=", 16).expect("canonical"), b"hello".to_vec());
    assert_eq!(decode_expected_lock("", 16).expect("empty is canonical"), Vec::<u8>::new());
    let unpadded = decode_expected_lock("aGVsbG8", 16).expect_err("padding required");
    assert_eq!(unpadded.kind, RpcErrorKind::Request);
    assert_eq!(unpadded.message, "expected_lock_base64 is not valid canonical base64");
    assert!(decode_expected_lock("aGVsbG9=", 16).is_err());
    assert!(decode_expected_lock("aGVs bG8=", 16).is_err());
    let long = decode_expected_lock("aGVsbG8=", 4).expect_err("over the limit");
    assert_eq!(long.kind, RpcErrorKind::Integrity);
    assert_eq!(long.message, "decoded expected lock exceeds the configured byte limit");
    assert!(expected_lock_from(None, 4).is_err());
    assert_eq!(expected_lock_from(Some(vec![1, 2]), 2).expect("at the limit"), vec![1, 2]);
}

#[test]
fn rejected_pack_sources_name_path_and_reason() {
    let failure = SourceFailure::new(
        PackRelativePath::parse("pack.yaml").expect("valid path"),
        SourceFailureKind::SymbolicLink,
    );
    let error = pack_source_rejection(&failure);
    assert_eq!(error.kind, RpcErrorKind::Input);
    assert_eq!(error.message, "pack input `pack.yaml` was rejected: symbolic link rejected");
}
