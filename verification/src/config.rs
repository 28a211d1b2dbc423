//! The viewer's settings: the ini document it keeps, and where it is kept.

use vstd::prelude::*;

use ini::Ini;

verus! {

/// The ini document type of the `rust-ini` crate.
#[verifier::external_type_specification]
#[verifier::external_body]
pub struct ExIni(ini::Ini);

/// Ini entries: each (section, key) pair, `None` standing for the general
/// section, mapped to its value.
pub type IniEntries = Map<(Option<Seq<char>>, Seq<char>), Seq<char>>;

/// What an ini document holds: the value of each key of each section that
/// has one.
pub uninterp spec fn ini_entries(conf: Ini) -> IniEntries;

/// An empty ini document.
///
/// Trusted: `Ini::new`, which the crate builds as the default value of its
/// map of sections, so the document holds no entry.
#[verifier::external_body]
fn ini_new() -> (conf: Ini)
    ensures
        ini_entries(conf) == IniEntries::empty(),
{
    Ini::new()
}

/// Sets `key` to `value` in the section named `section`.
///
/// Trusted: `Ini::set_to` with `Some(section)`, which the crate implements as
/// `with_section(section).set(key, value)`: the section is created when
/// missing, and the pair is inserted into its map of properties, replacing
/// the key's previous value.  Every other entry stays as it was.
#[verifier::external_body]
fn ini_set_to(conf: &mut Ini, section: String, key: String, value: String)
    ensures
        ini_entries(*final(conf)) == ini_entries(*old(conf)).insert(
            (Some(section@), key@),
            value@,
        ),
{
    conf.set_to(Some(section), key, value);
}

/// Sets `k` to `v` in section `section_name` of `conf`, the part of saving a
/// setting that changes the document (writing it to a file is left to the
/// caller).
pub fn set_kv(conf: &mut Ini, section_name: String, k: String, v: String)
    ensures
        ini_entries(*final(conf)) == ini_entries(*old(conf)).insert(
            (Some(section_name@), k@),
            v@,
        ),
{
    ini_set_to(conf, section_name, k, v);
}

/// The document the viewer starts with: the encoding of its files, `utf-8`,
/// under key `encoding` of section `Encodage`.
pub fn default_config() -> (conf: Ini)
    ensures
        ini_entries(conf) == IniEntries::empty().insert(
            (Some("Encodage"@), "encoding"@),
            "utf-8"@,
        ),
{
    let mut conf = ini_new();
    set_kv(&mut conf, "Encodage".to_owned(), "encoding".to_owned(), "utf-8".to_owned());
    conf
}

/// Records in `conf` the name of the capture file just opened, under key
/// `file_name` of section `Fichier`.
pub fn record_opened_file(conf: &mut Ini, file_name: String)
    ensures
        ini_entries(*final(conf)) == ini_entries(*old(conf)).insert(
            (Some("Fichier"@), "file_name"@),
            file_name@,
        ),
{
    set_kv(conf, "Fichier".to_owned(), "file_name".to_owned(), file_name);
}

/// Law: after a setting is saved, reading it back gives the saved value, and
/// every other setting reads as before.
pub proof fn lemma_set_then_read(
    before: IniEntries,
    after: IniEntries,
    section: Seq<char>,
    key: Seq<char>,
    value: Seq<char>,
)
    requires
        after == before.insert((Some(section), key), value),
    ensures
        after.contains_key((Some(section), key)),
        after[(Some(section), key)] == value,
        forall|other: (Option<Seq<char>>, Seq<char>)|
            other != (Some(section), key) ==> (#[trigger] after.contains_key(other)
                == before.contains_key(other) && (before.contains_key(other) ==> after[other]
                == before[other])),
{
}

/// Where the viewer keeps its settings file.
#[allow(non_camel_case_types)]
pub struct INI_FILE {
    ini_path: String,
}

impl View for INI_FILE {
    type V = Seq<char>;

    /// The path, as text.
    closed spec fn view(&self) -> Seq<char> {
        self.ini_path@
    }
}

impl INI_FILE {
    /// A settings location at the root path `/`.
    pub fn new() -> (file: INI_FILE)
        ensures
            file@ == "/"@,
    {
        INI_FILE { ini_path: "/".to_owned() }
    }
}

} // verus!
