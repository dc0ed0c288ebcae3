//! Finding the metadata of a repository: the addresses of its documents,
//! the variables in a base address, and the settings of a repository file.

use std::io::Read;
use flate2::read::GzDecoder;
use vstd::prelude::*;
use vstd::string::{StrSliceExecFns, StringExecFns};
use crate::segment::chars_of;

verus! {

/// Why the metadata of a repository could not be had.
#[derive(Clone, Copy, Debug, PartialEq, Eq, Structural)]
pub enum RepoError {
    /// The archive is no gzip archive of text.
    BadArchive,
}

/// The address of `repomd.xml` below the base address `base`.
pub open spec fn repomd_location(base: Seq<char>) -> Seq<char> {
    base + "repodata/repomd.xml"@
}

/// The address of `repomd.xml` below the base address `base`.
pub fn repomd_url(base: &str) -> (r: String)
    ensures
        r@ == repomd_location(base@),
{
    base.to_owned().concat("repodata/repomd.xml")
}

/// One `data` element of `repomd.xml`: the kind of document and where it
/// lies, relative to the base address.
#[derive(Debug, PartialEq, Eq)]
pub struct Data {
    pub kind: String,
    pub href: String,
}

/// What a [`Data`] holds, as mathematical values.
pub struct DataView {
    pub kind: Seq<char>,
    pub href: Seq<char>,
}

impl View for Data {
    type V = DataView;

    open spec fn view(&self) -> DataView {
        DataView { kind: self.kind@, href: self.href@ }
    }
}

impl DeepView for Data {
    type V = DataView;

    open spec fn deep_view(&self) -> DataView {
        self@
    }
}

/// The first of the first `n` entries that is of kind `primary`.
pub open spec fn first_primary(entries: Seq<DataView>, n: int) -> Option<int>
    decreases n,
{
    if n <= 0 {
        None
    } else {
        match first_primary(entries, n - 1) {
            Some(i) => Some(i),
            None => if entries[n - 1].kind == "primary"@ {
                Some(n - 1)
            } else {
                None
            },
        }
    }
}

/// The address of the primary metadata: the base address followed by the
/// place of the first entry of kind `primary`. Without such an entry it is
/// the base address itself.
pub open spec fn primary_location(base: Seq<char>, entries: Seq<DataView>) -> Seq<char> {
    match first_primary(entries, entries.len() as int) {
        Some(i) => base + entries[i].href,
        None => base,
    }
}

/// The address of the primary metadata of the repository at `base`, whose
/// `repomd.xml` holds `entries`.
pub fn primary_url(base: &str, entries: &Vec<Data>) -> (r: String)
    ensures
        r@ == primary_location(base@, entries.deep_view()),
{
    let primary = "primary".to_owned();
    let mut k: usize = 0;
    while k < entries.len()
        invariant
            k <= entries.len(),
            primary@ == "primary"@,
            first_primary(entries.deep_view(), k as int) is None,
        decreases entries.len() - k,
    {
        assert(entries.deep_view()[k as int] == entries[k as int]@);
        if entries[k].kind == primary {
            proof {
                lemma_first_primary_stays(entries.deep_view(), k as int, entries.len() as int);
            }
            return base.to_owned().concat(entries[k].href.as_str());
        }
        k += 1;
    }
    base.to_owned()
}

proof fn lemma_first_primary_stays(entries: Seq<DataView>, k: int, n: int)
    requires
        0 <= k < n <= entries.len(),
        first_primary(entries, k) is None,
        entries[k].kind == "primary"@,
    ensures
        first_primary(entries, n) == Some(k),
    decreases n - k,
{
    if n > k + 1 {
        lemma_first_primary_stays(entries, k, n - 1);
    }
}

/// The text that a gzip archive holds: `None` where the bytes are no gzip
/// archive, or what they hold is no UTF-8 text.
pub uninterp spec fn gunzip_text(archive: Seq<u8>) -> Option<Seq<char>>;

/// Reads a `flate2::read::GzDecoder` over the archive to its end with
/// `read_to_string`. The decoder unpacks the first member of a gzip archive
/// and checks its checksum; it fails on bytes that are no such archive and on
/// content that is no UTF-8 text. What comes out depends on the bytes alone.
#[verifier::external_body]
fn gunzip(archive: &Vec<u8>) -> (r: Option<String>)
    ensures
        match r {
            Some(text) => gunzip_text(archive@) == Some(text@),
            None => gunzip_text(archive@) is None,
        },
{
    let mut text = String::new();
    match GzDecoder::new(&archive[..]).read_to_string(&mut text) {
        Ok(_) => Some(text),
        Err(_) => None,
    }
}

/// Unpacks the primary metadata, which a repository publishes as a gzip
/// archive.
pub fn unpack_primary(archive: &Vec<u8>) -> (r: Result<String, RepoError>)
    ensures
        match r {
            Ok(text) => gunzip_text(archive@) == Some(text@),
            Err(e) => e == RepoError::BadArchive && gunzip_text(archive@) is None,
        },
{
    match gunzip(archive) {
        Some(text) => Ok(text),
        None => Err(RepoError::BadArchive),
    }
}

/// `pattern` stands somewhere in `text`.
pub open spec fn occurs(text: Seq<char>, pattern: Seq<char>) -> bool {
    exists|i: int|
        0 <= i <= text.len() - pattern.len() && #[trigger] text.subrange(i, i + pattern.len())
            == pattern
}

/// `str::contains` with a string as the pattern: whether the pattern equals
/// some part of the text.
#[verifier::external_body]
fn contains(text: &str, pattern: &str) -> (r: bool)
    ensures
        r == occurs(text@, pattern@),
{
    text.contains(pattern)
}

/// `text` with every match of `from` replaced by `to`.
pub uninterp spec fn replaced_text(text: Seq<char>, from: Seq<char>, to: Seq<char>) -> Seq<char>;

/// `str::replace` with a string as the pattern: a new string in which the
/// matches of the pattern are replaced.
#[verifier::external_body]
fn replace(text: &str, from: &str, to: &str) -> (r: String)
    ensures
        r@ == replaced_text(text@, from@, to@),
{
    text.replace(from, to)
}

/// `text` without the white space at its start and at its end.
pub uninterp spec fn trimmed_text(text: Seq<char>) -> Seq<char>;

/// `str::trim`: the text with leading and trailing white space removed.
#[verifier::external_body]
fn trim(text: &str) -> (r: &str)
    ensures
        r@ == trimmed_text(text@),
{
    text.trim()
}

/// A variable that may stand in the base address of a repository file.
#[derive(Clone, Copy, Debug, PartialEq, Eq, Structural)]
pub enum YumVariable {
    /// The base architecture of the system.
    Basearch,
    /// The architecture of the processor.
    Arch,
    /// The release of the system.
    Releasever,
}

/// The base architecture of architecture `arch`: `i386` for `i686`.
pub open spec fn base_architecture(arch: Seq<char>) -> Seq<char> {
    if arch == "i686"@ {
        "i386"@
    } else {
        arch
    }
}

/// The place of the first dash of `s` at or after position `i`; the length
/// of `s` where there is none.
pub open spec fn dash_from(s: Seq<char>, i: int) -> int
    decreases s.len() - i,
{
    if i >= s.len() {
        s.len() as int
    } else if i >= 0 && s[i] == '-' {
        i
    } else {
        dash_from(s, i + 1)
    }
}

/// The third of the fields that dashes separate in `s`; `None` where `s`
/// has fewer than three.
pub open spec fn third_field(s: Seq<char>) -> Option<Seq<char>> {
    let first = dash_from(s, 0);
    let second = dash_from(s, first + 1);
    if first >= s.len() || second >= s.len() {
        None
    } else {
        Some(s.subrange(second + 1, dash_from(s, second + 1)))
    }
}

fn find_dash(chars: &Vec<char>, from: usize) -> (r: usize)
    requires
        from <= chars.len(),
    ensures
        r == dash_from(chars@, from as int),
        from <= r <= chars.len(),
{
    let mut k: usize = from;
    while k < chars.len() && chars[k] != '-'
        invariant
            from <= k <= chars.len(),
            dash_from(chars@, from as int) == dash_from(chars@, k as int),
        decreases chars.len() - k,
    {
        k += 1;
    }
    k
}

impl YumVariable {
    /// How the variable is written in a base address.
    pub open spec fn token(self) -> Seq<char> {
        match self {
            YumVariable::Basearch => "$basearch"@,
            YumVariable::Arch => "$arch"@,
            YumVariable::Releasever => "$releasever"@,
        }
    }

    /// The value of the variable, given what the system said when asked:
    /// its architecture for `Basearch` and `Arch`, the name of its release
    /// package for `Releasever`. The release is the third field of that
    /// name.
    pub open spec fn value_from(self, output: Seq<char>) -> Option<Seq<char>> {
        match self {
            YumVariable::Basearch => Some(base_architecture(output)),
            YumVariable::Arch => Some(output),
            YumVariable::Releasever => third_field(output),
        }
    }

    /// How the variable is written in a base address.
    pub fn name(self) -> (r: &'static str)
        ensures
            r@ == self.token(),
    {
        match self {
            YumVariable::Basearch => "$basearch",
            YumVariable::Arch => "$arch",
            YumVariable::Releasever => "$releasever",
        }
    }

    /// Whether the variable stands in the base address `url`.
    pub fn occurs_in(self, url: &str) -> (r: bool)
        ensures
            r == occurs(url@, self.token()),
    {
        contains(url, self.name())
    }

    /// The value of the variable, given what the system said when asked.
    pub fn value(self, output: &str) -> (r: Option<String>)
        ensures
            match r {
                Some(text) => self.value_from(output@) == Some(text@),
                None => self.value_from(output@) is None,
            },
    {
        match self {
            YumVariable::Basearch => {
                if output.to_owned() == "i686".to_owned() {
                    Some("i386".to_owned())
                } else {
                    Some(output.to_owned())
                }
            },
            YumVariable::Arch => Some(output.to_owned()),
            YumVariable::Releasever => {
                let chars = chars_of(output);
                let first = find_dash(&chars, 0);
                if first >= chars.len() {
                    return None;
                }
                let second = find_dash(&chars, first + 1);
                if second >= chars.len() {
                    return None;
                }
                let third = find_dash(&chars, second + 1);
                Some(output.substring_char(second + 1, third).to_owned())
            },
        }
    }

    /// The base address `url` with the variable replaced by `value`.
    pub fn bind(self, url: &str, value: &str) -> (r: String)
        ensures
            r@ == replaced_text(url@, self.token(), value@),
    {
        replace(url, self.name(), value)
    }
}

/// The name and the base address that a section of a repository file gives
/// to a repository.
#[derive(Debug, PartialEq, Eq)]
pub struct RepoSettings {
    pub name: String,
    pub baseurl: String,
}

/// What a [`RepoSettings`] holds, as mathematical values.
pub struct SettingsView {
    pub name: Seq<char>,
    pub baseurl: Seq<char>,
}

impl View for RepoSettings {
    type V = SettingsView;

    open spec fn view(&self) -> SettingsView {
        SettingsView { name: self.name@, baseurl: self.baseurl@ }
    }
}

/// The settings that the first `n` keys of a section give. A key counts
/// without the white space around it; `name` and `baseurl` set the two
/// settings, a later one replacing an earlier one, and other keys set
/// nothing. `None` where `name` or `baseurl` stands without a value.
pub open spec fn settings_among(entries: Seq<(Seq<char>, Option<Seq<char>>)>, n: int) -> Option<
    SettingsView,
>
    decreases n,
{
    if n <= 0 {
        Some(SettingsView { name: Seq::empty(), baseurl: Seq::empty() })
    } else {
        match settings_among(entries, n - 1) {
            None => None,
            Some(earlier) => {
                let key = trimmed_text(entries[n - 1].0);
                let value = entries[n - 1].1;
                if key == "name"@ {
                    match value {
                        None => None,
                        Some(text) => Some(SettingsView { name: text, baseurl: earlier.baseurl }),
                    }
                } else if key == "baseurl"@ {
                    match value {
                        None => None,
                        Some(text) => Some(SettingsView { name: earlier.name, baseurl: text }),
                    }
                } else {
                    Some(earlier)
                }
            },
        }
    }
}

/// Reads the settings of a repository from the keys and values of its
/// section of a repository file.
pub fn read_settings(entries: &Vec<(String, Option<String>)>) -> (r: Option<RepoSettings>)
    ensures
        match r {
            Some(settings) => settings_among(entries.deep_view(), entries.len() as int) == Some(
                settings@,
            ),
            None => settings_among(entries.deep_view(), entries.len() as int) is None,
        },
{
    let name_key = "name".to_owned();
    let baseurl_key = "baseurl".to_owned();
    let mut settings = RepoSettings { name: String::new(), baseurl: String::new() };
    let mut k: usize = 0;
    while k < entries.len()
        invariant
            k <= entries.len(),
            name_key@ == "name"@,
            baseurl_key@ == "baseurl"@,
            settings_among(entries.deep_view(), k as int) == Some(settings@),
        decreases entries.len() - k,
    {
        let entry = &entries[k];
        assert(entries.deep_view()[k as int] == entry.deep_view());
        let key = trim(entry.0.as_str()).to_owned();
        if key == name_key {
            match &entry.1 {
                None => {
                    proof {
                        lemma_settings_stay_none(entries.deep_view(), k + 1, entries.len() as int);
                    }
                    return None;
                },
                Some(text) => {
                    settings.name = text.clone();
                },
            }
        } else if key == baseurl_key {
            match &entry.1 {
                None => {
                    proof {
                        lemma_settings_stay_none(entries.deep_view(), k + 1, entries.len() as int);
                    }
                    return None;
                },
                Some(text) => {
                    settings.baseurl = text.clone();
                },
            }
        }
        k += 1;
    }
    Some(settings)
}

proof fn lemma_settings_stay_none(entries: Seq<(Seq<char>, Option<Seq<char>>)>, k: int, n: int)
    requires
        0 <= k <= n,
        settings_among(entries, k) is None,
    ensures
        settings_among(entries, n) is None,
    decreases n - k,
{
    if n > k {
        lemma_settings_stay_none(entries, k, n - 1);
    }
}

} // verus!
