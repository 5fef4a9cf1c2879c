use openssl::sha::Sha256;
use pgvm::common::WriteSha256;
use pgvm::data::UnstableVersion;
use pgvm::data::Version;
use pgvm::errors::Reason;
use pgvm::online::checksum_url;
use pgvm::online::content_length;
use pgvm::online::contents_copy_version;
use pgvm::online::decode_name;
use pgvm::online::download_url;
use pgvm::online::get_versions;
use pgvm::online::listing_url;
use pgvm::online::open_version;
use pgvm::online::verify_version;
use pgvm::online::Content;
use pgvm::online::ListBucket;
use pgvm::online::Synchronizer;
use pgvm::online::MIN_PACKAGE_SIZE;

const ABC_DIGEST: &str = "ba7816bf8f01cfea414140de5dae2223b00361a396177a9cb410ff61f20015ad";

fn page(marker: Option<&str>, keys: &[&str]) -> ListBucket {
    let mut contents = Vec::new();
    for (i, key) in keys.iter().enumerate() {
        contents.push(Content { key: key.to_string(), size: 1000 + i as i32 });
    }
    ListBucket { next_marker: marker.map(|m| m.to_string()), contents }
}

fn names(found: &[Version]) -> Vec<String> {
    found.iter().map(|v| v.name.clone()).collect()
}

fn sink_of(chunks: &[&[u8]]) -> WriteSha256 {
    let mut sink = WriteSha256::new(Sha256::new());
    for chunk in chunks {
        assert_eq!(sink.write(chunk), chunk.len());
    }
    sink.flush();
    sink
}

#[test]
fn online_versions() {
    let x = get_versions(vec![
        page(Some("go1.19"), &["go1.18.linux-amd64.tar.gz", "go1.18.windows-386.zip"]),
        page(None, &["go1.19.linux-amd64.tar.gz"]),
    ]);
    println!("数量 {}", x.len());
    for ver in x.iter() {
        println!("{}", ver.to_string());
    }
    assert_eq!(x.len(), 3);
    assert_eq!(x[0].to_string(), "go1.18.linux-amd64");
    assert_eq!(x[1].to_string(), "go1.18.windows-386");
    assert_eq!(x[2].to_string(), "go1.19.linux-amd64");
}

#[test]
fn verify() {
    let go_latest = decode_name("go1.19.linux-amd64.tar.gz", 0).unwrap();
    println!("go latest {}", go_latest.to_string());
    assert_eq!(
        checksum_url(&go_latest),
        "https://storage.googleapis.com/golang/go1.19.linux-amd64.tar.gz.sha256"
    );
    verify_version(Some(ABC_DIGEST), sink_of(&[b"abc"])).unwrap();
}

#[test]
fn verify_is_case_insensitive_and_streams() {
    let upper = ABC_DIGEST.to_uppercase();
    assert!(verify_version(Some(&upper), sink_of(&[b"a", b"", b"bc"])).is_ok());
    assert!(verify_version(Some(ABC_DIGEST), sink_of(&[b"ab", b"c"])).is_ok());
    let mixed = "BA7816bf8f01cfea414140de5dae2223b00361a396177a9cb410ff61f20015AD";
    assert!(verify_version(Some(mixed), sink_of(&[b"abc"])).is_ok());
}

#[test]
fn verify_rejects_another_digest() {
    let err = verify_version(Some(ABC_DIGEST), sink_of(&[b"abd"])).unwrap_err();
    assert_eq!(err.kind, Reason::Hashinconformity);
    assert_eq!(err.msg, "sha256 hash不一致");
    assert_eq!(err.to_string(), "sha256 hash不一致");
    // the digest of the empty stream
    let empty = "e3b0c44298fc1c149afbf4c8996fb92427ae41e4649b934ca495991b7852b855";
    assert!(verify_version(Some(empty), sink_of(&[])).is_ok());
    assert!(verify_version(Some(empty), sink_of(&[b"abc"])).is_err());
    // text around the digest is not overlooked
    let padded = format!("{}\n", ABC_DIGEST);
    assert!(verify_version(Some(&padded), sink_of(&[b"abc"])).is_err());
    assert!(verify_version(Some(""), sink_of(&[b"abc"])).is_err());
    // the digest string itself is tested, not handed back
    assert!(verify_version(Some("abc"), sink_of(&[b"abc"])).is_err());
}

#[test]
fn verify_passes_without_published_digest() {
    assert!(verify_version(None, sink_of(&[b"anything at all"])).is_ok());
    assert!(verify_version(None, sink_of(&[])).is_ok());
}

#[test]
fn sink_hands_its_hasher_back() {
    let mut sink = WriteSha256::new(Sha256::new());
    sink.write(b"ab");
    let mut hasher = sink.into_sha256();
    hasher.update(b"c");
    let sink = WriteSha256::new(hasher);
    assert_eq!(sink.finish_hex(), ABC_DIGEST);
    let bytes: Vec<u8> = (0u8..=255).collect();
    let direct = openssl::sha::sha256(&bytes);
    let mut text = String::new();
    for b in direct {
        text.push_str(&format!("{:02x}", b));
    }
    assert_eq!(sink_of(&[&bytes]).finish_hex(), text);
}

#[test]
fn parses_stable_archive_name() {
    let v = decode_name("go1.21.3.linux-amd64.tar.gz", 66_000_000).unwrap();
    assert_eq!(v.v1, 1);
    assert_eq!(v.v2, Some(21));
    assert_eq!(v.v3, Some(3));
    assert_eq!(v.unstable_v4, None);
    assert_eq!(v.os, "linux");
    assert_eq!(v.arch, "amd64");
    assert_eq!(v.name, "go1.21.3.linux-amd64.tar.gz");
    assert_eq!(v.sha256, "go1.21.3.linux-amd64.tar.gz.sha256");
    assert_eq!(v.size, 66_000_000);
    assert_eq!(v.to_string(), "go1.21.3.linux-amd64");
    assert_eq!(v.short_version(), "1.21.3");
}

#[test]
fn parses_beta_archive_name() {
    let beta = decode_name("go1.19beta2.linux-amd64.tar.gz", 1).unwrap();
    assert_eq!(beta.unstable_v4, Some(UnstableVersion::Beta(2)));
    assert_eq!((beta.v1, beta.v2, beta.v3), (1, Some(19), None));
    assert_eq!(beta.to_string(), "go1.19beta2.linux-amd64");
    let stable = decode_name("go1.19.linux-amd64.tar.gz", 1).unwrap();
    assert!(beta < stable);
    assert!(stable > beta);
    let rc = decode_name("go1.19rc1.linux-amd64.tar.gz", 1).unwrap();
    assert_eq!(rc.unstable_v4, Some(UnstableVersion::RC(1)));
    assert!(beta < rc);
    assert!(rc < stable);
}

#[test]
fn parses_zip_and_short_numbers() {
    let v = decode_name("go1.windows-386.zip", 7).unwrap();
    assert_eq!((v.v1, v.v2, v.v3), (1, None, None));
    assert_eq!(v.os, "windows");
    assert_eq!(v.arch, "386");
    assert_eq!(v.to_string(), "go1.windows-386");
    let v = decode_name("go12.5.freebsd-arm_v6.zip", 7).unwrap();
    assert_eq!((v.v1, v.v2, v.v3), (12, Some(5), None));
    assert_eq!(v.arch, "arm_v6");
    let v = decode_name("go1.2.3rc10.darwin-arm64.tar.gz", 7).unwrap();
    assert_eq!((v.v1, v.v2, v.v3), (1, Some(2), Some(3)));
    assert_eq!(v.unstable_v4, Some(UnstableVersion::RC(10)));
    assert_eq!(v.short_version(), "1.2.3rc10");
}

#[test]
fn numbers_give_way_where_the_name_fits_no_other_way() {
    // the digits after the dot are the operating system here
    let v = decode_name("go1.2-amd64.zip", 7).unwrap();
    assert_eq!((v.v1, v.v2, v.v3), (1, None, None));
    assert_eq!(v.os, "2");
    assert_eq!(v.arch, "amd64");
    let v = decode_name("go1.2.3-x.zip", 7).unwrap();
    assert_eq!((v.v1, v.v2, v.v3), (1, Some(2), None));
    assert_eq!(v.os, "3");
    assert_eq!(v.arch, "x");
}

#[test]
fn suffix_without_tag_is_a_stable_release() {
    let v = decode_name("go1.5alpha.linux-amd64.tar.gz", 7).unwrap();
    assert_eq!(v.unstable_v4, None);
    assert_eq!((v.v1, v.v2), (1, Some(5)));
    let v = decode_name("go1.5rc.linux-amd64.tar.gz", 7).unwrap();
    assert_eq!(v.unstable_v4, None);
    // the leftmost tag in the suffix counts
    let v = decode_name("go1.5xbeta3rc4.linux-amd64.tar.gz", 7).unwrap();
    assert_eq!(v.unstable_v4, Some(UnstableVersion::Beta(3)));
    let v = decode_name("go1.5_rc07_.linux-amd64.tar.gz", 7).unwrap();
    assert_eq!(v.unstable_v4, Some(UnstableVersion::RC(7)));
    // a number that does not fit leaves no tag
    let v = decode_name("go1.5rc99999999999.linux-amd64.tar.gz", 7).unwrap();
    assert_eq!(v.unstable_v4, None);
}

#[test]
fn numbers_that_do_not_fit() {
    assert!(decode_name("go2147483648.linux-amd64.tar.gz", 7).is_none());
    let v = decode_name("go2147483647.linux-amd64.tar.gz", 7).unwrap();
    assert_eq!(v.v1, i32::MAX);
    let v = decode_name("go1.2147483648.3.linux-amd64.tar.gz", 7).unwrap();
    assert_eq!((v.v1, v.v2, v.v3), (1, None, Some(3)));
    assert_eq!(v.to_string(), "go1.3.linux-amd64");
    let v = decode_name("go001.0002.linux-amd64.tar.gz", 7).unwrap();
    assert_eq!((v.v1, v.v2), (1, Some(2)));
}

#[test]
fn names_that_are_no_archives() {
    for key in [
        "",
        "go",
        "go1",
        "go1.19.linux-amd64.tar.gz.sha256",
        "go1.19.linux-amd64.tar.gz.asc",
        "go1.19.linux-amd64.msi",
        "go1.19.linux-amd64.pkg.tar.gz",
        "go1.19.src.tar.gz",
        "go1.4-bootstrap-20161024.tar.gz",
        "go1.2.2.darwin-amd64-osx10.6.tar.gz",
        "go.linux-amd64.tar.gz",
        "gox1.linux-amd64.tar.gz",
        "Go1.19.linux-amd64.tar.gz",
        "xgo1.19.linux-amd64.tar.gz",
        "go1.19.linux-amd64.tar.gzip",
        "go1.19.linux-amd64.zip.zip",
        "go1.19.linux-.zip",
        "go1.19.-amd64.zip",
        "go1.2.3.4.linux-amd64.zip",
        "go1.19.linux-amd64zip",
        "go1.19.linux-amd64.ZIP",
        "go1.19.linüx-amd64.zip",
        "go١.linux-amd64.zip",
    ] {
        assert!(decode_name(key, 7).is_none(), "{}", key);
    }
}

#[test]
fn copies_archives_in_listing_order() {
    let listed = page(
        None,
        &[
            "go1.19.linux-amd64.tar.gz",
            "go1.19.linux-amd64.tar.gz.sha256",
            "go1.18.windows-386.zip",
            "getgo/installer.exe",
            "go1.20rc1.darwin-arm64.tar.gz",
        ],
    );
    let mut out = vec![decode_name("go1.1.linux-386.tar.gz", 5).unwrap()];
    contents_copy_version(listed.contents, &mut out);
    assert_eq!(
        names(&out),
        vec![
            "go1.1.linux-386.tar.gz",
            "go1.19.linux-amd64.tar.gz",
            "go1.18.windows-386.zip",
            "go1.20rc1.darwin-arm64.tar.gz",
        ]
    );
    assert_eq!(out[1].size, 1000);
    assert_eq!(out[2].size, 1002);
    let mut same = Vec::new();
    contents_copy_version(Vec::new(), &mut same);
    assert!(same.is_empty());
}

#[test]
fn walk_reads_every_page_once() {
    let pages = vec![
        page(Some("m1"), &["go1.3.linux-amd64.tar.gz", "go1.2.linux-amd64.tar.gz", "go1.1.linux-amd64.tar.gz"]),
        page(Some("m2"), &["go1.5.linux-amd64.tar.gz", "go1.4.linux-amd64.tar.gz"]),
        page(Some(""), &["go1.6.linux-amd64.tar.gz"]),
    ];
    let mut walk = Synchronizer::new();
    let mut requests = Vec::new();
    let mut fed = 0;
    for p in pages {
        match walk.next_request() {
            Some(url) => requests.push(url),
            None => break,
        }
        walk.accept(p);
        fed += 1;
    }
    assert_eq!(fed, 3);
    assert!(walk.next_request().is_none());
    assert_eq!(
        requests,
        vec![
            "https://storage.googleapis.com/golang/?prefix=go&marker=",
            "https://storage.googleapis.com/golang/?prefix=go&marker=m1",
            "https://storage.googleapis.com/golang/?prefix=go&marker=m2",
        ]
    );
    assert_eq!(
        names(&walk.finish()),
        vec![
            "go1.3.linux-amd64.tar.gz",
            "go1.2.linux-amd64.tar.gz",
            "go1.1.linux-amd64.tar.gz",
            "go1.5.linux-amd64.tar.gz",
            "go1.4.linux-amd64.tar.gz",
            "go1.6.linux-amd64.tar.gz",
        ]
    );
}

#[test]
fn walk_stops_at_the_first_last_page() {
    let found = get_versions(vec![
        page(Some("next"), &["go1.1.linux-amd64.tar.gz"]),
        page(None, &["go1.2.linux-amd64.tar.gz"]),
        page(Some("more"), &["go1.3.linux-amd64.tar.gz"]),
    ]);
    assert_eq!(names(&found), vec!["go1.1.linux-amd64.tar.gz", "go1.2.linux-amd64.tar.gz"]);
    let found = get_versions(vec![
        page(Some(""), &["go1.1.linux-amd64.tar.gz"]),
        page(None, &["go1.2.linux-amd64.tar.gz"]),
    ]);
    assert_eq!(names(&found), vec!["go1.1.linux-amd64.tar.gz"]);
    assert!(get_versions(Vec::new()).is_empty());
    // pages that run out before a last page: what was read is kept
    let found = get_versions(vec![page(Some("next"), &["go1.1.linux-amd64.tar.gz"])]);
    assert_eq!(names(&found), vec!["go1.1.linux-amd64.tar.gz"]);
}

#[test]
fn finished_walk_takes_nothing() {
    let mut walk = Synchronizer::new();
    walk.accept(page(None, &["go1.1.linux-amd64.tar.gz"]));
    assert!(walk.next_request().is_none());
    walk.accept(page(Some("again"), &["go1.2.linux-amd64.tar.gz"]));
    assert!(walk.next_request().is_none());
    assert_eq!(names(&walk.finish()), vec!["go1.1.linux-amd64.tar.gz"]);
}

#[test]
fn addresses() {
    let v = decode_name("go1.19.linux-amd64.tar.gz", 0).unwrap();
    assert_eq!(
        download_url(&v),
        "https://storage.googleapis.com/golang/go1.19.linux-amd64.tar.gz"
    );
    assert_eq!(
        checksum_url(&v),
        "https://storage.googleapis.com/golang/go1.19.linux-amd64.tar.gz.sha256"
    );
    assert_eq!(
        listing_url("go1.19"),
        "https://storage.googleapis.com/golang/?prefix=go&marker=go1.19"
    );
}

#[test]
fn answers_to_a_download_request() {
    assert_eq!(MIN_PACKAGE_SIZE, 40 << 20);
    assert_eq!(open_version(200, "u", None).unwrap(), 0);
    assert_eq!(open_version(200, "u", Some(MIN_PACKAGE_SIZE)).unwrap(), MIN_PACKAGE_SIZE);
    assert_eq!(open_version(200, "u", Some(i32::MAX)).unwrap(), i32::MAX);
    let err = open_version(200, "u", Some(MIN_PACKAGE_SIZE - 1)).unwrap_err();
    assert_eq!(err.kind, Reason::InvalidResource);
    assert_eq!(err.msg, "go package too small");
    let err = open_version(200, "u", Some(-1)).unwrap_err();
    assert_eq!(err.kind, Reason::InvalidResource);
    let err = open_version(204, "https://example.org/a", Some(i32::MAX)).unwrap_err();
    assert_eq!(err.kind, Reason::ConnectionFailed);
    assert_eq!(err.msg, "invalid http status code: 204; url: https://example.org/a");
    let err = open_version(404, "x", None).unwrap_err();
    assert_eq!(err.kind, Reason::ConnectionFailed);
    assert_eq!(err.msg, "invalid http status code: 404; url: x");
}

#[test]
fn display_text_and_extension_parse_back() {
    let tags = [
        None,
        Some(UnstableVersion::RC(0)),
        Some(UnstableVersion::RC(12)),
        Some(UnstableVersion::Beta(3)),
        Some(UnstableVersion::Beta(i32::MAX)),
    ];
    let numbers = [
        (0, None, None),
        (1, Some(0), None),
        (1, Some(21), Some(3)),
        (i32::MAX, Some(i32::MAX), Some(i32::MAX)),
        (12, Some(5), Some(0)),
    ];
    let targets = [("linux", "amd64"), ("windows", "386"), ("2", "x"), ("_", "9"), ("rc1", "beta2")];
    for tag in tags {
        for (v1, v2, v3) in numbers {
            for (os, arch) in targets {
                for ext in ["tar.gz", "zip"] {
                    let v = Version {
                        name: String::new(),
                        arch: arch.to_string(),
                        os: os.to_string(),
                        v1,
                        v2,
                        v3,
                        unstable_v4: tag,
                        size: 0,
                        sha256: String::new(),
                    };
                    let key = format!("{}.{}", v.to_string(), ext);
                    let back = decode_name(&key, 77).unwrap();
                    assert_eq!((back.v1, back.v2, back.v3), (v1, v2, v3), "{}", key);
                    assert_eq!(back.unstable_v4, tag, "{}", key);
                    assert_eq!(back.os, os, "{}", key);
                    assert_eq!(back.arch, arch, "{}", key);
                    assert_eq!(back.name, key);
                    assert_eq!(back.size, 77);
                    assert_eq!(back.sha256, format!("{}.sha256", key));
                    assert_eq!(back.to_string(), v.to_string());
                }
            }
        }
    }
}

#[test]
fn declared_lengths() {
    assert_eq!(content_length(None), None);
    assert_eq!(content_length(Some("66000000")), Some(66_000_000));
    assert_eq!(content_length(Some("0")), Some(0));
    assert_eq!(content_length(Some("")), None);
    assert_eq!(content_length(Some("4294967296")), None);
    assert_eq!(content_length(Some("12 bytes")), None);
    let length = content_length(Some("41943039"));
    assert_eq!(open_version(200, "u", length).unwrap_err().kind, Reason::InvalidResource);
    let length = content_length(Some("3000000000"));
    assert_eq!(open_version(200, "u", length).unwrap(), 0);
}
