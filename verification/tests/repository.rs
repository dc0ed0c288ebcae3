use std::io::Write;

use flate2::write::GzEncoder;
use flate2::Compression;
use rust_solv::repo::{
    primary_url, read_settings, repomd_url, unpack_primary, Data, RepoError, RepoSettings,
    YumVariable,
};
use rust_solv::report::verdict_message;
use rust_solv::solve::SolveError;

fn data(kind: &str, href: &str) -> Data {
    Data { kind: kind.to_string(), href: href.to_string() }
}

fn gzip(text: &str) -> Vec<u8> {
    let mut encoder = GzEncoder::new(Vec::new(), Compression::default());
    encoder.write_all(text.as_bytes()).unwrap();
    encoder.finish().unwrap()
}

#[test]
fn repomd_lies_below_the_base_address() {
    assert_eq!(
        repomd_url("https://repo.example.org/OS/x86_64/"),
        "https://repo.example.org/OS/x86_64/repodata/repomd.xml"
    );
    assert_eq!(repomd_url(""), "repodata/repomd.xml");
}

#[test]
fn primary_address_is_that_of_the_first_primary_entry() {
    let entries = vec![
        data("filelists", "repodata/f.xml.gz"),
        data("primary", "repodata/p.xml.gz"),
        data("primary", "repodata/other.xml.gz"),
    ];
    assert_eq!(primary_url("http://r/", &entries), "http://r/repodata/p.xml.gz");
}

#[test]
fn without_primary_entry_the_base_address_stands() {
    let entries = vec![data("filelists", "repodata/f.xml.gz"), data("primary_db", "repodata/p.sqlite")];
    assert_eq!(primary_url("http://r/", &entries), "http://r/");
    assert_eq!(primary_url("http://r/", &Vec::new()), "http://r/");
}

#[test]
fn archive_is_unpacked() {
    let text = "<metadata packages=\"0\"></metadata>";
    let archive = gzip(text);
    assert_ne!(archive, text.as_bytes().to_vec());
    assert_eq!(unpack_primary(&archive), Ok(text.to_string()));
    assert_eq!(unpack_primary(&gzip("")), Ok(String::new()));
}

#[test]
fn bytes_that_are_no_archive_are_refused() {
    assert_eq!(unpack_primary(&b"plain text".to_vec()), Err(RepoError::BadArchive));
    assert_eq!(unpack_primary(&Vec::new()), Err(RepoError::BadArchive));
    let mut broken = gzip("some text that is long enough to matter");
    let last: usize = broken.len() - 1;
    broken[last] ^= 0xff;
    assert_eq!(unpack_primary(&broken), Err(RepoError::BadArchive));
}

#[test]
fn archive_of_bytes_that_are_no_text_is_refused() {
    let mut encoder = GzEncoder::new(Vec::new(), Compression::default());
    encoder.write_all(&[0xff, 0xfe, 0x00]).unwrap();
    let archive = encoder.finish().unwrap();
    assert_eq!(unpack_primary(&archive), Err(RepoError::BadArchive));
}

#[test]
fn variables_are_found_in_an_address() {
    let url = "http://r/$releasever/OS/$basearch/";
    assert!(YumVariable::Basearch.occurs_in(url));
    assert!(YumVariable::Releasever.occurs_in(url));
    assert!(!YumVariable::Arch.occurs_in(url));
    assert!(YumVariable::Arch.occurs_in("http://r/$arch/"));
    assert!(!YumVariable::Basearch.occurs_in("http://r/basearch/"));
}

#[test]
fn variables_have_their_names() {
    assert_eq!(YumVariable::Basearch.name(), "$basearch");
    assert_eq!(YumVariable::Arch.name(), "$arch");
    assert_eq!(YumVariable::Releasever.name(), "$releasever");
}

#[test]
fn binding_replaces_the_variable() {
    assert_eq!(YumVariable::Basearch.bind("http://r/$basearch/os", "x86_64"), "http://r/x86_64/os");
    assert_eq!(
        YumVariable::Arch.bind("http://r/$arch/os/$arch", "aarch64"),
        "http://r/aarch64/os/aarch64"
    );
    assert_eq!(YumVariable::Releasever.bind("http://r/$releasever/", "22.03LTS"), "http://r/22.03LTS/");
    assert_eq!(YumVariable::Releasever.bind("http://r/os/", "22.03LTS"), "http://r/os/");
}

#[test]
fn base_architecture_of_i686_is_i386() {
    assert_eq!(YumVariable::Basearch.value("i686"), Some("i386".to_string()));
    assert_eq!(YumVariable::Basearch.value("x86_64"), Some("x86_64".to_string()));
    assert_eq!(YumVariable::Basearch.value("i686\n"), Some("i686\n".to_string()));
    assert_eq!(YumVariable::Arch.value("i686"), Some("i686".to_string()));
}

#[test]
fn release_is_the_third_field_of_the_package_name() {
    assert_eq!(
        YumVariable::Releasever.value("openEuler-release-22.03LTS-52.oe2203"),
        Some("22.03LTS".to_string())
    );
    assert_eq!(YumVariable::Releasever.value("a-b-c"), Some("c".to_string()));
    assert_eq!(YumVariable::Releasever.value("a-b-"), Some(String::new()));
    assert_eq!(YumVariable::Releasever.value("--x-y"), Some("x".to_string()));
}

#[test]
fn release_needs_three_fields() {
    assert_eq!(YumVariable::Releasever.value("a-b"), None);
    assert_eq!(YumVariable::Releasever.value("package is not installed"), None);
    assert_eq!(YumVariable::Releasever.value(""), None);
}

#[test]
fn settings_are_read_from_name_and_baseurl() {
    let entries = vec![
        (" name ".to_string(), Some("OS".to_string())),
        ("enabled".to_string(), Some("1".to_string())),
        ("baseurl\t".to_string(), Some("http://r/$basearch/".to_string())),
        ("mirrorlist".to_string(), None),
    ];
    assert_eq!(
        read_settings(&entries),
        Some(RepoSettings { name: "OS".to_string(), baseurl: "http://r/$basearch/".to_string() })
    );
}

#[test]
fn later_setting_replaces_earlier_one() {
    let entries = vec![
        ("name".to_string(), Some("first".to_string())),
        ("name ".to_string(), Some("second".to_string())),
    ];
    assert_eq!(
        read_settings(&entries),
        Some(RepoSettings { name: "second".to_string(), baseurl: String::new() })
    );
}

#[test]
fn section_without_settings_gives_empty_ones() {
    assert_eq!(
        read_settings(&Vec::new()),
        Some(RepoSettings { name: String::new(), baseurl: String::new() })
    );
}

#[test]
fn setting_without_value_is_refused() {
    assert_eq!(read_settings(&vec![("name".to_string(), None)]), None);
    assert_eq!(
        read_settings(&vec![
            ("baseurl".to_string(), None),
            ("name".to_string(), Some("OS".to_string())),
        ]),
        None
    );
}

#[test]
fn verdicts_are_reported() {
    assert_eq!(
        verdict_message("vim", &Ok(true)),
        "Congratulations! Package vim's dependencies can be satisfied in the repo. :)"
    );
    assert_eq!(
        verdict_message("vim", &Ok(false)),
        "Sorry, package vim's dependencies can not be satisfied in the repo. :("
    );
    assert_eq!(
        verdict_message("vim", &Err(SolveError::PackageNotFound)),
        "Error: something wrong happened while solving the dependency problem of package vim."
    );
}
