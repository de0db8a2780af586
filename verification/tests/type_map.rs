//! Tests of the OCSF-to-proto type mapping and identifier conversions.

use ocsf_proto_gen::type_map::{
    ocsf_to_proto_type, sanitize_object_name, to_enum_variant_name, to_pascal_case,
    to_screaming_snake,
};

#[test]
fn primitive_type_mapping() {
    assert_eq!(ocsf_to_proto_type("string_t"), Some("string"));
    assert_eq!(ocsf_to_proto_type("integer_t"), Some("int32"));
    assert_eq!(ocsf_to_proto_type("long_t"), Some("int64"));
    assert_eq!(ocsf_to_proto_type("timestamp_t"), Some("int64"));
    assert_eq!(ocsf_to_proto_type("float_t"), Some("double"));
    assert_eq!(ocsf_to_proto_type("boolean_t"), Some("bool"));
    assert_eq!(ocsf_to_proto_type("port_t"), Some("int32"));
}

#[test]
fn all_string_derived_types() {
    // Every type derived from string_t in the OCSF spec.
    for t in &[
        "hostname_t",
        "ip_t",
        "mac_t",
        "url_t",
        "email_t",
        "uuid_t",
        "file_path_t",
        "file_name_t",
        "file_hash_t",
        "subnet_t",
        "username_t",
        "process_name_t",
        "resource_uid_t",
        "datetime_t",
        "bytestring_t",
        "reg_key_path_t",
    ] {
        assert_eq!(
            ocsf_to_proto_type(t),
            Some("string"),
            "expected string for {t}"
        );
    }
}

#[test]
fn timestamp_is_int64_not_string() {
    // OCSF timestamp_t is epoch milliseconds (base type: long_t).
    // Must be int64, NOT string and NOT a structured time type.
    assert_eq!(ocsf_to_proto_type("timestamp_t"), Some("int64"));
}

#[test]
fn datetime_is_string() {
    // OCSF datetime_t is an RFC 3339 string (base type: string_t).
    // Must be string, NOT int64. This is different from timestamp_t.
    assert_eq!(ocsf_to_proto_type("datetime_t"), Some("string"));
}

#[test]
fn json_t_maps_to_string() {
    assert_eq!(ocsf_to_proto_type("json_t"), Some("string"));
}

#[test]
fn object_t_returns_none() {
    assert_eq!(ocsf_to_proto_type("object_t"), None);
}

#[test]
fn unknown_type_falls_back_to_string() {
    assert_eq!(ocsf_to_proto_type("some_future_type"), Some("string"));
}

#[test]
fn pascal_case_conversion() {
    assert_eq!(to_pascal_case("network_endpoint"), "NetworkEndpoint");
    assert_eq!(to_pascal_case("user"), "User");
    assert_eq!(to_pascal_case("auth_factor"), "AuthFactor");
    assert_eq!(to_pascal_case("cis_csc"), "CisCsc");
}

#[test]
fn pascal_case_strips_extension_prefix() {
    assert_eq!(to_pascal_case("win/win_service"), "WinService");
    assert_eq!(to_pascal_case("win/reg_key"), "RegKey");
}

#[test]
fn screaming_snake_conversion() {
    assert_eq!(to_screaming_snake("authentication"), "AUTHENTICATION");
    assert_eq!(to_screaming_snake("security_finding"), "SECURITY_FINDING");
}

#[test]
fn enum_variant_name_conversion() {
    assert_eq!(to_enum_variant_name("Logon"), "LOGON");
    assert_eq!(
        to_enum_variant_name("Service Ticket Request"),
        "SERVICE_TICKET_REQUEST"
    );
    assert_eq!(to_enum_variant_name("TLP:AMBER+STRICT"), "TLP_AMBER_STRICT");
    assert_eq!(to_enum_variant_name("Unknown"), "UNKNOWN");
    assert_eq!(to_enum_variant_name("Other"), "OTHER");
}

#[test]
fn sanitize_object_name_strips_prefix() {
    assert_eq!(sanitize_object_name("win/win_service"), "win_service");
    assert_eq!(sanitize_object_name("user"), "user");
}
