//! End-to-end generation tests over an in-memory schema: file set, proto
//! content, enum synthesis, the enum value map, and determinism.

use ocsf_proto_gen::codegen::{generate, GenerationOutput};
use ocsf_proto_gen::schema::{
    schema_wf_check, OcsfAttribute, OcsfClass, OcsfEnumValue, OcsfObject, OcsfSchema,
};

fn attr(type_tag: &str, caption: &str) -> OcsfAttribute {
    OcsfAttribute {
        type_tag: type_tag.to_string(),
        caption: caption.to_string(),
        description: String::new(),
        requirement: None,
        is_array: false,
        object_type: None,
        group: None,
        sibling: None,
        profile: None,
        enum_values: None,
        deprecated: None,
    }
}

fn enum_val(caption: &str) -> OcsfEnumValue {
    OcsfEnumValue {
        caption: caption.to_string(),
        description: None,
    }
}

fn table(pairs: &[(&str, &str)]) -> Option<Vec<(String, OcsfEnumValue)>> {
    Some(
        pairs
            .iter()
            .map(|(k, c)| (k.to_string(), enum_val(c)))
            .collect(),
    )
}

/// A minimal but realistic schema. Attribute lists are in name order, the
/// order a name-keyed map hands them out in.
fn test_schema() -> OcsfSchema {
    let mut auth_attrs: Vec<(String, OcsfAttribute)> = Vec::new();
    auth_attrs.push((
        "activity_id".to_string(),
        OcsfAttribute {
            enum_values: table(&[("0", "Unknown"), ("1", "Logon"), ("2", "Logoff"), ("99", "Other")]),
            ..attr("integer_t", "Activity ID")
        },
    ));
    auth_attrs.push((
        "auth_protocol".to_string(),
        OcsfAttribute {
            enum_values: table(&[("Kerberos", "Kerberos"), ("NTLM", "NTLM")]),
            ..attr("string_t", "Auth Protocol")
        },
    ));
    auth_attrs.push((
        "enrichments".to_string(),
        OcsfAttribute {
            object_type: Some("enrichment".to_string()),
            is_array: true,
            ..attr("object_t", "Enrichments")
        },
    ));
    auth_attrs.push(("message".to_string(), attr("string_t", "Message")));
    auth_attrs.push((
        "old_field".to_string(),
        OcsfAttribute {
            deprecated: Some(ocsf_proto_gen::schema::OcsfDeprecated {
                message: "Use new_field instead.".to_string(),
                since: "1.4.0".to_string(),
            }),
            ..attr("string_t", "Old Field")
        },
    ));
    auth_attrs.push((
        "severity_id".to_string(),
        OcsfAttribute {
            enum_values: table(&[
                ("0", "Unknown"),
                ("1", "Informational"),
                ("2", "Low"),
                ("3", "Medium"),
                ("4", "High"),
                ("5", "Critical"),
                ("6", "Fatal"),
                ("99", "Other"),
            ]),
            ..attr("integer_t", "Severity ID")
        },
    ));
    auth_attrs.push((
        "src_endpoint".to_string(),
        OcsfAttribute {
            object_type: Some("network_endpoint".to_string()),
            ..attr("object_t", "Source Endpoint")
        },
    ));
    auth_attrs.push(("time".to_string(), attr("timestamp_t", "Event Time")));
    auth_attrs.push(("unmapped".to_string(), attr("json_t", "Unmapped Data")));

    let auth = OcsfClass {
        name: "authentication".to_string(),
        uid: 3002,
        caption: "Authentication".to_string(),
        description: String::new(),
        extends: "iam".to_string(),
        category: "iam".to_string(),
        category_uid: 3,
        category_name: "Identity & Access Management".to_string(),
        profiles: vec![],
        attributes: auth_attrs,
    };

    let mut ep_attrs: Vec<(String, OcsfAttribute)> = Vec::new();
    ep_attrs.push(("hostname".to_string(), attr("hostname_t", "Hostname")));
    ep_attrs.push(("ip".to_string(), attr("ip_t", "IP Address")));
    ep_attrs.push(("port".to_string(), attr("port_t", "Port")));
    ep_attrs.push((
        "type_id".to_string(),
        OcsfAttribute {
            enum_values: table(&[("0", "Unknown"), ("1", "Server"), ("2", "Desktop")]),
            ..attr("integer_t", "Type ID")
        },
    ));
    let endpoint = OcsfObject {
        name: "network_endpoint".to_string(),
        caption: "Network Endpoint".to_string(),
        description: String::new(),
        extends: None,
        attributes: ep_attrs,
        observable: Some(20),
    };

    let mut enrich_attrs: Vec<(String, OcsfAttribute)> = Vec::new();
    enrich_attrs.push(("name".to_string(), attr("string_t", "Name")));
    enrich_attrs.push(("value".to_string(), attr("string_t", "Value")));
    let enrichment = OcsfObject {
        name: "enrichment".to_string(),
        caption: "Enrichment".to_string(),
        description: String::new(),
        extends: None,
        attributes: enrich_attrs,
        observable: None,
    };

    OcsfSchema {
        version: "1.7.0".to_string(),
        classes: vec![("authentication".to_string(), auth)],
        objects: vec![
            ("enrichment".to_string(), enrichment),
            ("network_endpoint".to_string(), endpoint),
        ],
    }
}

fn file_content<'a>(out: &'a GenerationOutput, path: &str) -> &'a str {
    for f in &out.files {
        if f.path == path {
            return &f.content;
        }
    }
    panic!("no generated file at {path}");
}

#[test]
fn end_to_end_generate_and_validate() {
    let schema = test_schema();
    assert!(schema_wf_check(&schema));

    let out = generate(&schema, &vec!["authentication".to_string()])
        .expect("generation should succeed");

    // Verify stats.
    assert_eq!(out.stats.classes_generated, 1);
    assert_eq!(out.stats.objects_generated, 2); // network_endpoint + enrichment
    assert!(out.stats.deprecated_fields_skipped >= 1);
    assert!(out.stats.enums_generated >= 2); // activity_id + severity_id + type_id

    // Verify the file set.
    let paths: Vec<&str> = out.files.iter().map(|f| f.path.as_str()).collect();
    assert!(paths.contains(&"ocsf/v1_7_0/events/iam/iam.proto"));
    assert!(paths.contains(&"ocsf/v1_7_0/events/iam/enums/enums.proto"));
    assert!(paths.contains(&"ocsf/v1_7_0/objects/objects.proto"));
    assert!(paths.contains(&"ocsf/v1_7_0/objects/enums/enums.proto"));
    assert!(paths.contains(&"ocsf/v1_7_0/enum-value-map.json"));
}

#[test]
fn generated_proto_has_correct_content() {
    let schema = test_schema();
    let out = generate(&schema, &vec!["authentication".to_string()]).unwrap();

    let proto = file_content(&out, "ocsf/v1_7_0/events/iam/iam.proto");

    // Verify proto3 syntax and package.
    assert!(proto.starts_with("syntax = \"proto3\";"));
    assert!(proto.contains("package ocsf.v1_7_0.events.iam;"));

    // Verify message name.
    assert!(proto.contains("message Authentication {"));

    // Verify enum type references (not primitive int32).
    assert!(proto.contains("ocsf.v1_7_0.events.iam.enums.AUTHENTICATION_ACTIVITY_ID activity_id"));
    assert!(proto.contains("ocsf.v1_7_0.events.iam.enums.AUTHENTICATION_SEVERITY_ID severity_id"));

    // Verify object references.
    assert!(proto.contains("ocsf.v1_7_0.objects.NetworkEndpoint src_endpoint"));
    assert!(proto.contains("repeated ocsf.v1_7_0.objects.Enrichment enrichments"));

    // Verify json_t maps to string, not a structured dynamic type.
    assert!(proto.contains("string unmapped"));
    assert!(!proto.contains("google.protobuf.Struct"));

    // Verify the deprecated field is skipped.
    assert!(!proto.contains("old_field"));

    // Verify a string-keyed enum stays a string field (no enum type ref).
    assert!(proto.contains("string auth_protocol"));
    assert!(!proto.contains("AUTHENTICATION_AUTH_PROTOCOL"));

    // Verify imports.
    assert!(proto.contains("import \"ocsf/v1_7_0/events/iam/enums/enums.proto\";"));
    assert!(proto.contains("import \"ocsf/v1_7_0/objects/objects.proto\";"));
}

#[test]
fn generated_enums_have_correct_values() {
    let schema = test_schema();
    let out = generate(&schema, &vec!["authentication".to_string()]).unwrap();

    let enums = file_content(&out, "ocsf/v1_7_0/events/iam/enums/enums.proto");

    // Verify the activity_id enum.
    assert!(enums.contains("enum AUTHENTICATION_ACTIVITY_ID {"));
    assert!(enums.contains("AUTHENTICATION_ACTIVITY_ID_UNKNOWN = 0;"));
    assert!(enums.contains("AUTHENTICATION_ACTIVITY_ID_LOGON = 1;"));
    assert!(enums.contains("AUTHENTICATION_ACTIVITY_ID_LOGOFF = 2;"));
    assert!(enums.contains("AUTHENTICATION_ACTIVITY_ID_OTHER = 99;"));

    // Verify the severity_id enum.
    assert!(enums.contains("enum AUTHENTICATION_SEVERITY_ID {"));
    assert!(enums.contains("AUTHENTICATION_SEVERITY_ID_CRITICAL = 5;"));

    // Verify the string-keyed enum is NOT generated.
    assert!(!enums.contains("AUTH_PROTOCOL"));

    // Verify the object enums.
    let obj_enums = file_content(&out, "ocsf/v1_7_0/objects/enums/enums.proto");
    assert!(obj_enums.contains("enum NETWORK_ENDPOINT_TYPE_ID {"));
    assert!(obj_enums.contains("NETWORK_ENDPOINT_TYPE_ID_SERVER = 1;"));
}

#[test]
fn generated_objects_have_correct_fields() {
    let schema = test_schema();
    let out = generate(&schema, &vec!["authentication".to_string()]).unwrap();

    let objects = file_content(&out, "ocsf/v1_7_0/objects/objects.proto");

    // Verify the network_endpoint message.
    assert!(objects.contains("message NetworkEndpoint {"));
    assert!(objects.contains("string hostname"));
    assert!(objects.contains("string ip"));
    assert!(objects.contains("int32 port"));
    // Verify the object enum type reference.
    assert!(objects.contains("ocsf.v1_7_0.objects.enums.NETWORK_ENDPOINT_TYPE_ID type_id"));

    // Verify the enrichment message.
    assert!(objects.contains("message Enrichment {"));
    assert!(objects.contains("string name"));
    assert!(objects.contains("string value"));
}

#[test]
fn enum_value_map_is_valid_json() {
    let schema = test_schema();
    let out = generate(&schema, &vec!["authentication".to_string()]).unwrap();

    let json_str = file_content(&out, "ocsf/v1_7_0/enum-value-map.json");
    let map: serde_json::Value = serde_json::from_str(json_str).unwrap();

    // Verify it's an object with enum entries.
    assert!(map.is_object());
    let obj = map.as_object().unwrap();
    assert!(obj.contains_key("AUTHENTICATION_ACTIVITY_ID_LOGON"));
    assert_eq!(obj["AUTHENTICATION_ACTIVITY_ID_LOGON"]["value"], 1);
    assert_eq!(obj["AUTHENTICATION_ACTIVITY_ID_LOGON"]["name"], "Logon");
}

#[test]
fn deterministic_output() {
    let schema = test_schema();

    let out_a = generate(&schema, &vec!["authentication".to_string()]).unwrap();
    let out_b = generate(&schema, &vec!["authentication".to_string()]).unwrap();

    // Compare all generated files byte for byte.
    assert_eq!(out_a.files.len(), out_b.files.len());
    for (fa, fb) in out_a.files.iter().zip(out_b.files.iter()) {
        assert_eq!(fa.path, fb.path);
        assert_eq!(fa.content, fb.content, "files differ: {}", fa.path);
    }
}

#[test]
fn invalid_class_name_returns_error() {
    let schema = test_schema();

    let result = generate(&schema, &vec!["nonexistent_class".to_string()]);
    assert!(result.is_err());
    let err = result.unwrap_err().message();
    assert!(err.contains("nonexistent_class"));
    assert!(err.contains("not found"));
    // Should mention available classes.
    assert!(err.contains("authentication"));
}

#[test]
fn missing_zero_key_gets_sentinel() {
    // A value table without a 0 key gets a synthesized sentinel member.
    let mut schema = test_schema();
    schema.objects[1].1.attributes[3].1.enum_values =
        table(&[("1", "Server"), ("2", "Desktop")]);

    let out = generate(&schema, &vec!["authentication".to_string()]).unwrap();
    let obj_enums = file_content(&out, "ocsf/v1_7_0/objects/enums/enums.proto");
    assert!(obj_enums.contains("NETWORK_ENDPOINT_TYPE_ID_UNSPECIFIED = 0;"));
    assert!(obj_enums.contains("NETWORK_ENDPOINT_TYPE_ID_SERVER = 1;"));
    assert!(obj_enums.contains("NETWORK_ENDPOINT_TYPE_ID_DESKTOP = 2;"));
}

#[test]
fn empty_object_degrades_to_string() {
    // An object whose only attribute is deprecated cannot be emitted as a
    // message; a reference to it becomes a plain string field.
    let mut schema = test_schema();
    let mut empty_attrs: Vec<(String, OcsfAttribute)> = Vec::new();
    empty_attrs.push((
        "gone".to_string(),
        OcsfAttribute {
            deprecated: Some(ocsf_proto_gen::schema::OcsfDeprecated {
                message: "gone".to_string(),
                since: "1.0.0".to_string(),
            }),
            ..attr("string_t", "Gone")
        },
    ));
    schema.objects.insert(
        0,
        (
            "bare".to_string(),
            OcsfObject {
                name: "bare".to_string(),
                caption: "Bare".to_string(),
                description: String::new(),
                extends: None,
                attributes: empty_attrs,
                observable: None,
            },
        ),
    );
    schema.classes[0].1.attributes.insert(
        1,
        (
            "anything".to_string(),
            OcsfAttribute {
                object_type: Some("bare".to_string()),
                ..attr("object_t", "Anything")
            },
        ),
    );
    assert!(schema_wf_check(&schema));

    let out = generate(&schema, &vec!["authentication".to_string()]).unwrap();
    let proto = file_content(&out, "ocsf/v1_7_0/events/iam/iam.proto");
    assert!(proto.contains("string anything"));
    assert!(!proto.contains("ocsf.v1_7_0.objects.Bare"));
}

#[test]
fn unknown_type_tag_counted_and_string() {
    let mut schema = test_schema();
    schema.classes[0]
        .1
        .attributes
        .push(("zz_mystery".to_string(), attr("mystery_t", "Mystery")));
    assert!(schema_wf_check(&schema));

    let out = generate(&schema, &vec!["authentication".to_string()]).unwrap();
    let proto = file_content(&out, "ocsf/v1_7_0/events/iam/iam.proto");
    assert!(proto.contains("string zz_mystery"));
    assert_eq!(out.stats.unknown_types_defaulted, 1);
    assert_eq!(out.stats.string_enum_fields_skipped, 1); // auth_protocol
}

#[test]
fn field_numbers_stay_dense_over_deprecated() {
    let schema = test_schema();
    let out = generate(&schema, &vec!["authentication".to_string()]).unwrap();
    let proto = file_content(&out, "ocsf/v1_7_0/events/iam/iam.proto");
    // old_field sits between "message" (= 4) and "severity_id"; the
    // numbering skips nothing: severity_id takes 5.
    assert!(proto.contains("message = 4;"));
    assert!(proto.contains("severity_id = 5;"));
}

#[test]
fn version_slug_formats() {
    assert_eq!(ocsf_proto_gen::codegen::version_to_slug("1.7.0"), "v1_7_0");
    assert_eq!(ocsf_proto_gen::codegen::version_to_slug("1.8.0-dev"), "v1_8_0_dev");
}

#[test]
fn integer_enum_detection_is_holistic() {
    // One non-numeric key demotes the whole table.
    let all_int = vec![
        ("0".to_string(), enum_val("A")),
        ("10".to_string(), enum_val("B")),
    ];
    let mixed = vec![
        ("0".to_string(), enum_val("A")),
        ("GET".to_string(), enum_val("B")),
    ];
    let overflow = vec![("99999999999".to_string(), enum_val("Big"))];
    assert!(ocsf_proto_gen::codegen::is_integer_enum(&all_int));
    assert!(!ocsf_proto_gen::codegen::is_integer_enum(&mixed));
    assert!(!ocsf_proto_gen::codegen::is_integer_enum(&overflow));
}

#[test]
fn enum_value_map_exact_text() {
    // The map is pretty-printed with two-space indentation and sorted,
    // escaped keys.
    let mut schema = test_schema();
    schema.classes[0].1.attributes = vec![(
        "activity_id".to_string(),
        OcsfAttribute {
            enum_values: table(&[("1", "Needs \"quotes\"")]),
            ..attr("integer_t", "Activity ID")
        },
    )];
    let out = generate(&schema, &vec!["authentication".to_string()]).unwrap();
    let json = file_content(&out, "ocsf/v1_7_0/enum-value-map.json");
    let expected = "{\n  \"AUTHENTICATION_ACTIVITY_ID_NEEDS_QUOTES\": {\n    \"name\": \"Needs \\\"quotes\\\"\",\n    \"value\": 1\n  }\n}";
    assert_eq!(json, expected);
}

#[test]
fn closure_follows_nested_references() {
    // authentication -> network_endpoint; give the endpoint a reference to
    // a further object and check it lands in the objects file.
    let mut schema = test_schema();
    let mut loc_attrs: Vec<(String, OcsfAttribute)> = Vec::new();
    loc_attrs.push(("city".to_string(), attr("string_t", "City")));
    schema.objects.insert(
        1,
        (
            "location".to_string(),
            OcsfObject {
                name: "location".to_string(),
                caption: "Location".to_string(),
                description: String::new(),
                extends: None,
                attributes: loc_attrs,
                observable: None,
            },
        ),
    );
    schema.objects[2].1.attributes.insert(
        2,
        (
            "location".to_string(),
            OcsfAttribute {
                object_type: Some("location".to_string()),
                ..attr("object_t", "Location")
            },
        ),
    );
    assert!(schema_wf_check(&schema));

    let out = generate(&schema, &vec!["authentication".to_string()]).unwrap();
    assert_eq!(out.stats.objects_generated, 3);
    let objects = file_content(&out, "ocsf/v1_7_0/objects/objects.proto");
    assert!(objects.contains("message Location {"));
    // unreferenced objects never appear
    assert!(!objects.contains("message Unrelated {"));
}

#[test]
fn class_hint_truncates_after_ten() {
    // With more than ten known classes the hint names the first ten and
    // counts the rest.
    let mut schema = test_schema();
    let base = schema.classes[0].1.clone();
    schema.classes.clear();
    for i in 0..12 {
        let name = format!("class_{:02}", i);
        let mut c = base.clone();
        c.name = name.clone();
        schema.classes.push((name, c));
    }
    let err = generate(&schema, &vec!["zzz".to_string()]).unwrap_err();
    let msg = err.message();
    assert!(msg.contains("class 'zzz' not found"));
    assert!(msg.contains("class_00, class_01"));
    assert!(msg.contains("class_09"));
    assert!(!msg.contains("class_10"));
    assert!(msg.contains(" ... and 2 more"));
}

#[test]
fn deprecated_enum_absent_from_value_map() {
    // A deprecated attribute is excluded from all output: even when it
    // carries an integer-keyed value table, neither the enums file nor
    // the enum value map mentions its members.
    let mut schema = test_schema();
    schema.classes[0].1.attributes[4].1.enum_values =
        table(&[("0", "Unknown"), ("7", "Legacy")]);

    let out = generate(&schema, &vec!["authentication".to_string()]).unwrap();
    let enums = file_content(&out, "ocsf/v1_7_0/events/iam/enums/enums.proto");
    assert!(!enums.contains("OLD_FIELD"));
    let json = file_content(&out, "ocsf/v1_7_0/enum-value-map.json");
    assert!(!json.contains("OLD_FIELD"));
    assert!(!json.contains("Legacy"));
}
