use eowc_window::aws_config::{
    default_conn_config, object_location, AwsConfigV2, AwsCredentialV2, AwsCustomConfig,
    S3LocationError,
};

fn pairs(v: &[(&str, &str)]) -> Vec<(String, String)> {
    v.iter().map(|(k, v)| (k.to_string(), v.to_string())).collect()
}

#[test]
fn default_connection_settings() {
    let d = default_conn_config();
    assert_eq!(
        d,
        vec![("retry_times".to_string(), 3), ("conn_timeout".to_string(), 3), ("read_timeout".to_string(), 5)]
    );
    let c = AwsCustomConfig::default_config();
    assert_eq!(c, AwsCustomConfig { read_timeout: 5, conn_timeout: 3, retry_times: 3 });
}

#[test]
fn custom_config_from_pairs() {
    let c = AwsCustomConfig::from_conn_config(&vec![("retry_times".to_string(), (1u64 << 32) + 7), ("other".to_string(), 9)]);
    assert_eq!(c, AwsCustomConfig { read_timeout: 3, conn_timeout: 3, retry_times: 7 });
    let e = AwsCustomConfig::from_conn_config(&vec![]);
    assert_eq!(e, AwsCustomConfig { read_timeout: 3, conn_timeout: 3, retry_times: 0 });
}

#[test]
fn static_credentials_win() {
    let c = AwsConfigV2::from_props(&pairs(&[
        ("region", "us-east-1"),
        ("profile", "dev"),
        ("access_key", "AK"),
        ("secret_access", "SK"),
        ("session_token", "T"),
        ("endpoint_url", "http://localhost:9000"),
    ]));
    assert_eq!(c.region.as_deref(), Some("us-east-1"));
    assert_eq!(c.arn, None);
    assert_eq!(c.endpoint.as_deref(), Some("http://localhost:9000"));
    assert_eq!(
        c.credential,
        AwsCredentialV2::Static { access_key: "AK".into(), secret_access: "SK".into(), session_token: Some("T".into()) }
    );
}

#[test]
fn blank_keys_fall_back_to_profile() {
    let c = AwsConfigV2::from_props(&pairs(&[("profile", "dev"), ("access_key", "  "), ("secret_access", "SK")]));
    assert_eq!(c.credential, AwsCredentialV2::ProfileName("dev".into()));
    let d = AwsConfigV2::from_props(&pairs(&[("arn", "role")]));
    assert_eq!(d.credential, AwsCredentialV2::ProfileName("default".into()));
    assert_eq!(d.arn.as_deref(), Some("role"));
    assert_eq!(AwsCredentialV2::default_credential(), AwsCredentialV2::ProfileName("default".into()));
}

#[test]
fn location_from_parts() {
    let l = object_location(Some("bucket".to_string()), "/dir/schema.pb").unwrap();
    assert_eq!(l.bucket, "bucket");
    assert_eq!(l.key, "dirschema.pb");
    assert_eq!(object_location(None, "/x"), Err(S3LocationError::MissingBucket));
}
