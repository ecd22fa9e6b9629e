use dkregistry::errors::Error as ClientError;
use dkregistry::render::RenderError;
use dkregistry::v2::manifest::{Manifest, ManifestSchema1Signed};
use jjs_commons::puller::json::{Json, MAX_DEPTH};
use jjs_commons::puller::pull::{
    Pull, PullError, PullEvent, PullSettings, PullState, Puller, Tls, IMAGE_ARCHITECTURE,
};
use jjs_commons::puller::secret::ImagePullSecret;

fn secret(registry: &str, username: &str, password: &str) -> ImagePullSecret {
    ImagePullSecret {
        registry: registry.to_string(),
        username: Some(username.to_string()),
        password: Some(password.to_string()),
    }
}

fn manifest(architecture: &str, layers_last_first: &[&str]) -> Manifest {
    let layers = layers_last_first
        .iter()
        .map(|layer| format!("{{\"blobSum\":\"{}\"}}", layer))
        .collect::<Vec<_>>()
        .join(",");
    let text = format!(
        "{{\"schemaVersion\":1,\"name\":\"n\",\"tag\":\"t\",\"architecture\":\"{}\",\
         \"fsLayers\":[{}],\"history\":[],\"signatures\":[]}}",
        architecture, layers
    );
    Manifest::S1Signed(serde_json::from_str::<ManifestSchema1Signed>(&text).unwrap())
}

fn start(image: &str) -> Pull {
    Puller::new().pull(image, PullSettings::default()).unwrap()
}

/// A pull that is about to list its layers.
fn with_manifest(manifest: Manifest) -> Pull {
    start("foo/bar")
        .step(PullEvent::Connected(Ok(())))
        .step(PullEvent::AuthChecked(Ok(true)))
        .step(PullEvent::ManifestFound(Ok(true)))
        .step(PullEvent::DestinationCreated(Ok(())))
        .step(PullEvent::ManifestFetched(Ok(manifest)))
}

fn failure(pull: Pull) -> PullError {
    match pull.state {
        PullState::Finished(Err(err)) => err,
        _ => panic!("the pull did not fail"),
    }
}

#[test]
fn references_are_parsed() {
    for (image, registry, repository, version) in [
        ("alpine", "registry-1.docker.io", "library/alpine", "latest"),
        ("foo/bar", "registry-1.docker.io", "foo/bar", "latest"),
        (
            "cr.com/repo1/repo2/repo3/superimage",
            "cr.com",
            "repo1/repo2/repo3/superimage",
            "latest",
        ),
        ("cr.com:5000/x:1.2", "cr.com:5000", "x", "1.2"),
    ] {
        let pull = start(image);
        assert_eq!(pull.image, image);
        assert_eq!(pull.reference.registry, registry);
        assert_eq!(pull.reference.repository, repository);
        assert_eq!(pull.reference.version, version);
    }
}

#[test]
fn bad_reference_is_refused() {
    for image in ["", "UPPER", "a@b"] {
        match Puller::new().pull(image, PullSettings::default()) {
            Err(err) => {
                assert!(matches!(err, PullError::RefParse(_)));
                assert_eq!(err.description(), "invalid reference");
            }
            Ok(_) => panic!("{:?} was accepted", image),
        }
    }
}

#[test]
fn reference_error_is_passed_on() {
    match Puller::new().pull("", PullSettings::default()) {
        Err(PullError::RefParse(err)) => assert_eq!(err.to_string(), "missing image name"),
        _ => panic!("there is no image"),
    }
}

#[test]
fn first_matching_secret_is_used() {
    let mut puller = Puller::new();
    assert_eq!(puller.find_credentials("cr.com"), (None, None));
    puller.set_secrets(vec![
        secret("a.com", "u1", "p1"),
        secret("cr.com", "u2", "p2"),
        secret("cr.com", "u3", "p3"),
    ]);
    assert_eq!(
        puller.find_credentials("cr.com"),
        (Some("u2".to_string()), Some("p2".to_string()))
    );
    assert_eq!(puller.find_credentials("b.com"), (None, None));
    let pull = puller.pull("cr.com/x", PullSettings { tls: Tls::Disable }).unwrap();
    match pull.state {
        PullState::Connect(config) => {
            assert_eq!(config.registry, "cr.com");
            assert_eq!(config.username.as_deref(), Some("u2"));
            assert_eq!(config.password.as_deref(), Some("p2"));
            assert!(config.insecure);
        }
        _ => panic!("a pull begins with a connection"),
    }
}

#[test]
fn tls_is_on_unless_disabled() {
    assert_eq!(Tls::default(), Tls::Enable);
    assert_eq!(PullSettings::default().tls, Tls::Enable);
    match start("alpine").state {
        PullState::Connect(config) => {
            assert!(!config.insecure);
            assert_eq!(config.username, None);
            assert_eq!(config.password, None);
        }
        _ => panic!("a pull begins with a connection"),
    }
}

#[test]
fn login_is_tried_once() {
    let pull = start("foo/bar")
        .step(PullEvent::Connected(Ok(())))
        .step(PullEvent::AuthChecked(Ok(false)));
    match &pull.state {
        PullState::Authenticate { scope } => assert_eq!(scope, "repository:foo/bar:pull"),
        _ => panic!("a login is due"),
    }
    let pull = pull.step(PullEvent::Authenticated(Ok(())));
    assert!(matches!(pull.state, PullState::CheckAuth { again: true }));
    let err = failure(pull.step(PullEvent::AuthChecked(Ok(false))));
    assert!(matches!(err, PullError::LoginFailed));
    assert_eq!(err.description(), "login failure: obtained token is invalid");
}

#[test]
fn login_leads_to_the_image() {
    let pull = start("foo/bar")
        .step(PullEvent::Connected(Ok(())))
        .step(PullEvent::AuthChecked(Ok(false)))
        .step(PullEvent::Authenticated(Ok(())))
        .step(PullEvent::AuthChecked(Ok(true)));
    assert!(matches!(pull.state, PullState::FindManifest));
}

#[test]
fn missing_image_is_reported() {
    let err = failure(
        start("foo/bar:7")
            .step(PullEvent::Connected(Ok(())))
            .step(PullEvent::AuthChecked(Ok(true)))
            .step(PullEvent::ManifestFound(Ok(false))),
    );
    assert_eq!(err.description(), "image foo/bar:7 does not exist");
}

#[test]
fn client_failures_end_the_pull() {
    let connected = || start("x").step(PullEvent::Connected(Ok(())));
    let logged_in = || connected().step(PullEvent::AuthChecked(Ok(true)));
    let found = || {
        logged_in()
            .step(PullEvent::ManifestFound(Ok(true)))
            .step(PullEvent::DestinationCreated(Ok(())))
    };
    let failures = vec![
        start("x").step(PullEvent::Connected(Err(ClientError::NoCredentials))),
        connected().step(PullEvent::AuthChecked(Err(ClientError::NoCredentials))),
        connected()
            .step(PullEvent::AuthChecked(Ok(false)))
            .step(PullEvent::Authenticated(Err(ClientError::NoCredentials))),
        logged_in().step(PullEvent::ManifestFound(Err(ClientError::NoCredentials))),
        found().step(PullEvent::ManifestFetched(Err(ClientError::NoCredentials))),
        with_manifest(manifest("amd64", &["a"])).list_layers().step(PullEvent::BlobFetched {
            data: Err(ClientError::NoCredentials),
            cancelled: true,
        }),
    ];
    for pull in failures {
        let err = failure(pull);
        assert!(matches!(err, PullError::Client(ClientError::NoCredentials)));
        assert_eq!(err.description(), "registry communication error");
    }
}

#[test]
fn destination_must_be_created() {
    let io = std::io::Error::new(std::io::ErrorKind::Other, "no space");
    let err = failure(
        start("x")
            .step(PullEvent::Connected(Ok(())))
            .step(PullEvent::AuthChecked(Ok(true)))
            .step(PullEvent::ManifestFound(Ok(true)))
            .step(PullEvent::DestinationCreated(Err(io))),
    );
    assert!(matches!(err, PullError::CreateDest(_)));
    assert_eq!(err.description(), "failed to create destination dir");
}

#[test]
fn layers_are_fetched_in_turn() {
    assert_eq!(IMAGE_ARCHITECTURE, "amd64");
    let mut pull = with_manifest(manifest("amd64", &["top", "base"])).list_layers();
    for (index, expected) in ["base", "top"].iter().enumerate() {
        match &pull.state {
            PullState::GetBlob { digests, next, .. } => {
                assert_eq!(*next, index);
                assert_eq!(&digests[*next], expected);
            }
            _ => panic!("a layer is due"),
        }
        let data = vec![index as u8];
        pull = pull.step(PullEvent::BlobFetched { data: Ok(data.clone()), cancelled: false });
        match &pull.state {
            PullState::Unpack { next, data: kept, .. } => {
                assert_eq!(*next, index);
                assert_eq!(*kept, data);
            }
            _ => panic!("a layer is to be unpacked"),
        }
        pull = pull.step(PullEvent::Unpacked(Ok(())));
    }
    match pull.state {
        PullState::Finished(Ok(Manifest::S1Signed(m))) => assert_eq!(m.architecture, "amd64"),
        _ => panic!("the pull is over"),
    }
}

#[test]
fn image_without_layers_is_pulled_at_once() {
    let pull = with_manifest(manifest("amd64", &[])).list_layers();
    assert!(matches!(pull.state, PullState::Finished(Ok(_))));
}

#[test]
fn other_architectures_are_refused() {
    let err = failure(with_manifest(manifest("arm64", &["a"])).list_layers());
    match err {
        PullError::Client(ClientError::Manifest(inner)) => {
            assert_eq!(inner.to_string(), "architecture mismatch")
        }
        _ => panic!("{:?}", err),
    }
}

#[test]
fn pull_can_be_cancelled_after_a_download() {
    let pull = with_manifest(manifest("amd64", &["a"])).list_layers();
    let err = failure(pull.step(PullEvent::BlobFetched { data: Ok(vec![1]), cancelled: true }));
    assert!(matches!(err, PullError::Cancelled));
    assert_eq!(err.description(), "operation was cancelled");
}

#[test]
fn failed_unpacking_ends_the_pull() {
    let pull = with_manifest(manifest("amd64", &["b", "a"]))
        .list_layers()
        .step(PullEvent::BlobFetched { data: Ok(vec![1]), cancelled: false });
    let err = failure(pull.step(PullEvent::Unpacked(Err(RenderError::WrongTargetPath(
        std::path::PathBuf::from("x"),
    )))));
    assert!(matches!(err, PullError::Unpack(_)));
    assert_eq!(err.description(), "unpack failed");
}

fn config(text: &str) -> Json {
    Json::parse(text.as_bytes()).unwrap()
}

#[test]
fn docker_config_is_parsed() {
    // "user:pa:ss" and "nocolon"
    let config = config(
        "{\"auths\": {\
            \"a.com\": {\"auth\": \"dXNlcjpwYTpzcw==\"},\
            \"b.com\": {\"auth\": \"bm9jb2xvbg==\"},\
            \"c.com\": {\"auth\": \"!!!\"},\
            \"d.com\": {\"auth\": 7},\
            \"e.com\": {},\
            \"f.com\": null,\
            \"g.com\": {\"auth\": \"/w==\"},\
            \"h.com\": {\"auth\": \"Og==\"}\
        }, \"other\": [1, 2.5, true]}",
    );
    let secrets = ImagePullSecret::parse_docker_config(&config).unwrap();
    assert_eq!(secrets.len(), 2);
    assert_eq!(secrets[0].registry, "a.com");
    assert_eq!(secrets[0].username.as_deref(), Some("user"));
    assert_eq!(secrets[0].password.as_deref(), Some("pa:ss"));
    assert_eq!(secrets[1].registry, "h.com");
    assert_eq!(secrets[1].username.as_deref(), Some(""));
    assert_eq!(secrets[1].password.as_deref(), Some(""));
}

#[test]
fn other_documents_are_no_docker_configs() {
    for text in ["1", "[]", "null", "\"auths\"", "{}", "{\"auths\": []}", "{\"auths\": null}"] {
        assert!(ImagePullSecret::parse_docker_config(&config(text)).is_none(), "{}", text);
    }
    let found = ImagePullSecret::parse_docker_config(&config("{\"auths\": {}}"));
    assert!(found.unwrap().is_empty());
}

#[test]
fn kubernetes_secret_is_parsed() {
    let docker_config = "{\"auths\":{\"a.com\":{\"auth\":\"dXNlcjpwYTpzcw==\"}}}";
    let entry = |value: String| {
        Some(vec![
            ("other".to_string(), "x".to_string()),
            (".dockerconfigjson".to_string(), value),
        ])
    };
    let secrets =
        ImagePullSecret::parse_kubernetes_secret(&entry(base64::encode(docker_config))).unwrap();
    assert_eq!(secrets.len(), 1);
    assert_eq!(secrets[0].registry, "a.com");
    assert_eq!(secrets[0].username.as_deref(), Some("user"));

    let none = |data: Option<Vec<(String, String)>>| {
        ImagePullSecret::parse_kubernetes_secret(&data).is_none()
    };
    assert!(none(None));
    assert!(none(Some(vec![])));
    assert!(none(Some(vec![("other".to_string(), base64::encode(docker_config))])));
    assert!(none(entry("***".to_string())));
    assert!(none(entry(base64::encode("not json"))));
    assert!(none(entry(base64::encode("{}"))));
}

#[test]
fn login_ends_at_the_first_colon() {
    let found = ImagePullSecret::from_login_and_password("r", "l\u{f6}gin:a:b:").unwrap();
    assert_eq!(found.registry, "r");
    assert_eq!(found.username.as_deref(), Some("l\u{f6}gin"));
    assert_eq!(found.password.as_deref(), Some("a:b:"));
    assert!(ImagePullSecret::from_login_and_password("r", "login").is_none());
    assert!(ImagePullSecret::from_login_and_password("r", "").is_none());
    assert!(ImagePullSecret::from_decoded_auth("r", Some(vec![b'a', b':', 0xff])).is_none());
    assert!(ImagePullSecret::from_decoded_auth("r", None).is_none());
    assert!(ImagePullSecret::from_decoded_auth("r", Some(b"a:".to_vec())).is_some());
}

#[test]
fn password_is_not_shown() {
    let mut shown = secret("a.com", "user", "hunter2");
    assert_eq!(shown.to_text(), "registry: a.com; username: user, password: <provided>");
    shown.username = None;
    shown.password = None;
    assert_eq!(shown.to_text(), "registry: a.com; username: <missing>, password: <missing>");
}

#[test]
fn json_is_parsed() {
    let json = config("{\"a\": [null, true, 1e3, \"x\"], \"b\": {}}");
    match json.get("a") {
        Some(Json::Array(items)) => {
            assert_eq!(items.len(), 4);
            assert!(matches!(items[0], Json::Null));
            assert!(matches!(items[1], Json::Bool(true)));
            assert!(matches!(items[2], Json::Number));
            assert_eq!(items[3].as_str(), Some("x"));
        }
        _ => panic!("an array was expected"),
    }
    assert!(json.get("b").unwrap().as_object().unwrap().is_empty());
    assert!(json.get("c").is_none());
    assert!(json.as_str().is_none());
    assert!(Json::parse(b"{").is_none());
    assert!(Json::parse(b"").is_none());
    assert!(Json::parse(&[b'"', 0xff, b'"']).is_none());
}

#[test]
fn whatever_can_be_parsed_can_be_converted() {
    for depth in [1, 100, 126, 127, 128, 129, 200] {
        let text = format!("{}1{}", "[".repeat(depth), "]".repeat(depth));
        assert_eq!(
            Json::parse(text.as_bytes()).is_some(),
            serde_json::from_str::<serde_json::Value>(&text).is_ok(),
            "{}",
            depth
        );
    }
    assert!(Json::from_value(serde_json::Value::from(vec![1]), 2).is_some());
    assert!(Json::from_value(serde_json::Value::from(vec![1]), 1).is_none());
    assert_eq!(MAX_DEPTH, 128);
}
