//! The application's configuration: where its configuration files live, where
//! MAME is, where the ROMs are and which archive holds the snapshots.
//!
//! Paths are held as text. Reading the settings from disk and the environment is
//! the caller's part; this module turns loaded settings into a configuration and
//! a configuration into the text of its settings file.
use vstd::prelude::*;
use vstd::string::{StrSliceExecFns, StringExecFns};

verus! {

/// The application's configuration.
#[derive(Clone, Debug)]
pub struct Config {
    /// The directory of the application's configuration files.
    pub project_config_dir: String,
    /// The path of the MAME executable.
    pub mame_executable: String,
    /// The directory that holds the ROM files.
    pub roms_path: String,
    /// The path of the zip archive that holds the snapshot images.
    pub snap_file: String,
}

impl Default for Config {
    /// A configuration whose paths are all empty.
    fn default() -> (c: Config)
        ensures
            c.project_config_dir@ == Seq::<char>::empty(),
            c.mame_executable@ == Seq::<char>::empty(),
            c.roms_path@ == Seq::<char>::empty(),
            c.snap_file@ == Seq::<char>::empty(),
    {
        Config {
            project_config_dir: String::new(),
            mame_executable: String::new(),
            roms_path: String::new(),
            snap_file: String::new(),
        }
    }
}

/// What can go wrong when a configuration is built from loaded settings.
#[derive(Debug)]
pub enum SettingsError {
    /// A required key is missing from the settings.
    MissingConfigKey { key: String },
}

/// The value of the first setting named `key`, if any.
pub open spec fn setting_value(settings: Seq<(String, String)>, key: Seq<char>) -> Option<
    Seq<char>,
>
    decreases settings.len(),
{
    if settings.len() == 0 {
        None
    } else if settings[0].0@ == key {
        Some(settings[0].1@)
    } else {
        setting_value(settings.drop_first(), key)
    }
}

/// `s` with every backslash doubled, as a TOML basic string needs it.
pub open spec fn escape_backslashes(s: Seq<char>) -> Seq<char>
    decreases s.len(),
{
    if s.len() == 0 {
        s
    } else {
        let init = escape_backslashes(s.drop_last());
        if s.last() == '\\' {
            init + seq!['\\', '\\']
        } else {
            init.push(s.last())
        }
    }
}

/// Reads the backslash escapes of a TOML basic string back: a backslash
/// followed by a character stands for that character.
pub open spec fn unescape_backslashes(s: Seq<char>) -> Seq<char>
    decreases s.len(),
{
    if s.len() == 0 {
        s
    } else if s[0] == '\\' && s.len() >= 2 {
        seq![s[1]] + unescape_backslashes(s.skip(2))
    } else {
        seq![s[0]] + unescape_backslashes(s.drop_first())
    }
}

proof fn lemma_escape_add(a: Seq<char>, b: Seq<char>)
    ensures
        escape_backslashes(a + b) == escape_backslashes(a) + escape_backslashes(b),
    decreases b.len(),
{
    if b.len() == 0 {
        assert(a + b =~= a);
        assert(escape_backslashes(a) + escape_backslashes(b) =~= escape_backslashes(a));
    } else {
        lemma_escape_add(a, b.drop_last());
        assert((a + b).drop_last() =~= a + b.drop_last());
        if b.last() == '\\' {
            assert(escape_backslashes(a) + escape_backslashes(b) =~= escape_backslashes(a)
                + escape_backslashes(b.drop_last()) + seq!['\\', '\\']);
        } else {
            assert(escape_backslashes(a) + escape_backslashes(b) =~= (escape_backslashes(a)
                + escape_backslashes(b.drop_last())).push(b.last()));
        }
    }
}

/// Reading the escapes back gives the text that was escaped: a path written
/// to the settings file reads back as itself.
pub proof fn lemma_unescape_escape(s: Seq<char>)
    ensures
        unescape_backslashes(escape_backslashes(s)) == s,
    decreases s.len(),
{
    if s.len() > 0 {
        let c = s[0];
        let rest = s.drop_first();
        assert(s =~= seq![c] + rest);
        lemma_escape_add(seq![c], rest);
        let one = escape_backslashes(seq![c]);
        assert(seq![c].drop_last() =~= Seq::<char>::empty());
        assert(escape_backslashes(seq![c].drop_last()) =~= Seq::<char>::empty());
        assert(seq![c].last() == c);
        let e = escape_backslashes(s);
        lemma_unescape_escape(rest);
        if c == '\\' {
            assert(one =~= seq!['\\', '\\']);
            assert(e.skip(2) =~= escape_backslashes(rest));
        } else {
            assert(one =~= seq![c]);
            assert(e.drop_first() =~= escape_backslashes(rest));
        }
    }
}

/// The text of a settings file that holds the three paths.
pub open spec fn settings_file_text(mame_executable: Seq<char>, roms_path: Seq<char>, snap_file: Seq<char>) -> Seq<char> {
    "mame_executable = \""@ + escape_backslashes(mame_executable) + "\"\nroms_path = \""@
        + escape_backslashes(roms_path) + "\"\nsnap_file = \""@ + escape_backslashes(snap_file)
        + "\"\n"@
}

/// The value of the first setting named `key`.
fn find_setting(settings: &Vec<(String, String)>, key: &str) -> (r: Option<String>)
    ensures
        r matches Some(v) ==> setting_value(settings@, key@) == Some(v@),
        r is None ==> setting_value(settings@, key@) is None,
{
    let wanted = String::from_str(key);
    let mut i: usize = 0;
    assert(settings@.skip(0) =~= settings@);
    while i < settings.len()
        invariant
            i <= settings@.len(),
            wanted@ == key@,
            setting_value(settings@, key@) == setting_value(settings@.skip(i as int), key@),
        decreases settings@.len() - i,
    {
        assert(settings@.skip(i as int).drop_first() =~= settings@.skip(i + 1));
        assert(settings@.skip(i as int)[0] == settings@[i as int]);
        let entry = &settings[i];
        if entry.0 == wanted {
            let v = entry.1.clone();
            assert(v@ == settings@[i as int].1@);
            return Some(v);
        }
        i = i + 1;
    }
    None
}

/// `s` with every backslash doubled.
fn escape_text(s: &str) -> (r: String)
    ensures
        r@ == escape_backslashes(s@),
{
    let mut out = String::new();
    let n = s.unicode_len();
    let mut i: usize = 0;
    while i < n
        invariant
            n == s@.len(),
            i <= n,
            out@ == escape_backslashes(s@.take(i as int)),
        decreases n - i,
    {
        let piece = s.substring_char(i, i + 1);
        let c = s.get_char(i);
        assert(s@.take(i + 1).drop_last() =~= s@.take(i as int));
        out.append(piece);
        if c == '\\' {
            out.append(piece);
        }
        assert(out@ =~= escape_backslashes(s@.take(i + 1)));
        i = i + 1;
    }
    assert(s@.take(n as int) =~= s@);
    out
}

impl Config {
    /// Builds the configuration from the settings loaded from the settings
    /// file and the environment, each a key and its value. The keys
    /// `mame_executable`, `roms_path` and `snap_file` are required; the first
    /// of them that is missing is reported.
    pub fn from_settings(project_config_dir: String, settings: &Vec<(String, String)>) -> (r:
        Result<Config, SettingsError>)
        ensures
            r is Ok <==> (setting_value(settings@, "mame_executable"@) is Some && setting_value(
                settings@,
                "roms_path"@,
            ) is Some && setting_value(settings@, "snap_file"@) is Some),
            r matches Ok(c) ==> {
                &&& c.project_config_dir@ == project_config_dir@
                &&& Some(c.mame_executable@) == setting_value(settings@, "mame_executable"@)
                &&& Some(c.roms_path@) == setting_value(settings@, "roms_path"@)
                &&& Some(c.snap_file@) == setting_value(settings@, "snap_file"@)
            },
            r matches Err(SettingsError::MissingConfigKey { key }) ==> {
                if setting_value(settings@, "mame_executable"@) is None {
                    key@ == "mame_executable"@
                } else if setting_value(settings@, "roms_path"@) is None {
                    key@ == "roms_path"@
                } else {
                    key@ == "snap_file"@
                }
            },
    {
        let mame_executable = match find_setting(settings, "mame_executable") {
            Some(v) => v,
            None => {
                return Err(
                    SettingsError::MissingConfigKey { key: String::from_str("mame_executable") },
                );
            },
        };
        let roms_path = match find_setting(settings, "roms_path") {
            Some(v) => v,
            None => {
                return Err(SettingsError::MissingConfigKey { key: String::from_str("roms_path") });
            },
        };
        let snap_file = match find_setting(settings, "snap_file") {
            Some(v) => v,
            None => {
                return Err(SettingsError::MissingConfigKey { key: String::from_str("snap_file") });
            },
        };
        Ok(Config { project_config_dir, mame_executable, roms_path, snap_file })
    }

    /// The text of the settings file: the MAME executable, the ROMs directory
    /// and the snapshot archive as TOML strings, backslashes doubled.
    pub fn settings_file_content(&self) -> (t: String)
        ensures
            t@ == settings_file_text(self.mame_executable@, self.roms_path@, self.snap_file@),
    {
        let mut t = String::from_str("mame_executable = \"");
        t.append(escape_text(self.mame_executable.as_str()).as_str());
        t.append("\"\nroms_path = \"");
        t.append(escape_text(self.roms_path.as_str()).as_str());
        t.append("\"\nsnap_file = \"");
        t.append(escape_text(self.snap_file.as_str()).as_str());
        t.append("\"\n");
        t
    }
}

} // verus!
