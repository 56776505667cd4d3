use vstd::prelude::*;

verus! {

#[verifier::external_type_specification]
#[verifier::external_body]
pub struct ExConfig(::config::Config);

#[verifier::external_type_specification]
#[verifier::external_body]
pub struct ExConfigError(::config::ConfigError);

/// What a loaded configuration holds, read as text: each key for which
/// `Config::get::<String>` finds a value, mapped to that value.
pub uninterp spec fn config_entries(c: ::config::Config) -> Map<Seq<char>, Seq<char>>;

/// What a loaded configuration holds, read as integers: each key for which
/// `Config::get_int` finds an integer, mapped to it.
pub uninterp spec fn config_int_entries(c: ::config::Config) -> Map<Seq<char>, i64>;

/// The formats that a settings text can be written in, as config reads
/// them.
#[derive(Clone, Copy, Debug, PartialEq, Eq, Structural)]
pub enum ConfigFormat {
    Toml,
    Json,
    Yaml,
    Hjson,
    Ini,
}

/// The entries that config's reader for `format` reads from `text`, as
/// text, and whether it accepts the text at all.
pub uninterp spec fn text_entries(text: Seq<char>, format: ConfigFormat) -> Option<Map<Seq<char>, Seq<char>>>;

/// Reads settings text through config's `File::from_str` with the
/// `FileFormat` of the same name and `Config::merge`. The call succeeds
/// exactly when that reader accepts the text, and the configuration then
/// holds the entries it read.
#[verifier::external_body]
fn load_text(text: &str, format: ConfigFormat) -> (r: Result<::config::Config, ::config::ConfigError>)
    ensures
        r is Ok <==> text_entries(text@, format) is Some,
        r is Ok ==> config_entries(r->Ok_0) == text_entries(text@, format)->Some_0,
{
    let f = match format {
        ConfigFormat::Toml => ::config::FileFormat::Toml,
        ConfigFormat::Json => ::config::FileFormat::Json,
        ConfigFormat::Yaml => ::config::FileFormat::Yaml,
        ConfigFormat::Hjson => ::config::FileFormat::Hjson,
        ConfigFormat::Ini => ::config::FileFormat::Ini,
    };
    let mut settings = ::config::Config::default();
    match settings.merge(::config::File::from_str(text, f)) {
        Ok(_) => Ok(settings),
        Err(e) => Err(e),
    }
}

/// `Config::get::<String>`: the text stored under `key`, if any.
#[verifier::external_body]
fn lookup_text(c: &::config::Config, key: &str) -> (r: Result<String, ::config::ConfigError>)
    ensures
        r is Ok <==> config_entries(*c).contains_key(key@),
        r is Ok ==> r->Ok_0@ == config_entries(*c)[key@],
{
    c.get::<String>(key)
}

/// `Config::get_int`: the integer stored under `key`, if any.
#[verifier::external_body]
fn lookup_int(c: &::config::Config, key: &str) -> (r: Result<i64, ::config::ConfigError>)
    ensures
        r is Ok <==> config_int_entries(*c).contains_key(key@),
        r is Ok ==> r->Ok_0 == config_int_entries(*c)[key@],
{
    c.get_int(key)
}

/// The settings of a program.
pub struct ConfigUtils {
    pub settings: ::config::Config,
}

impl ConfigUtils {
    /// The settings written in `text` in `format` (a settings file's
    /// contents); `None` exactly where the text is not in that format.
    pub fn init(text: &str, format: ConfigFormat) -> (r: Option<Self>)
        ensures
            r is Some <==> text_entries(text@, format) is Some,
            r is Some ==> config_entries(r->Some_0.settings) == text_entries(text@, format)->Some_0,
    {
        match load_text(text, format) {
            Ok(settings) => Some(ConfigUtils { settings }),
            Err(_) => None,
        }
    }

    /// The settings written in INI text; `None` exactly where the text is not
    /// INI.
    pub fn from_ini(text: &str) -> (r: Option<Self>)
        ensures
            r is Some <==> text_entries(text@, ConfigFormat::Ini) is Some,
            r is Some ==> config_entries(r->Some_0.settings) == text_entries(text@, ConfigFormat::Ini)->Some_0,
    {
        Self::init(text, ConfigFormat::Ini)
    }

    /// The text under `key`, which must be set.
    pub fn get(&self, key: &str) -> (v: String)
        requires
            config_entries(self.settings).contains_key(key@),
        ensures
            v@ == config_entries(self.settings)[key@],
    {
        match lookup_text(&self.settings, key) {
            Ok(v) => v,
            Err(_) => vstd::pervasive::unreached(),
        }
    }

    /// The text under `key`, or `None` where it is not set.
    pub fn try_get(&self, key: &str) -> (v: Option<String>)
        ensures
            v is Some <==> config_entries(self.settings).contains_key(key@),
            v is Some ==> v->Some_0@ == config_entries(self.settings)[key@],
    {
        match lookup_text(&self.settings, key) {
            Ok(v) => Some(v),
            Err(_) => None,
        }
    }

    /// The integer under `key`, which must be set.
    pub fn get_int(&self, key: &str) -> (v: i64)
        requires
            config_int_entries(self.settings).contains_key(key@),
        ensures
            v == config_int_entries(self.settings)[key@],
    {
        match lookup_int(&self.settings, key) {
            Ok(v) => v,
            Err(_) => vstd::pervasive::unreached(),
        }
    }

    /// The integer under `key`, or `None` where it is not set as one.
    pub fn try_get_int(&self, key: &str) -> (v: Option<i64>)
        ensures
            v is Some <==> config_int_entries(self.settings).contains_key(key@),
            v is Some ==> v->Some_0 == config_int_entries(self.settings)[key@],
    {
        match lookup_int(&self.settings, key) {
            Ok(v) => Some(v),
            Err(_) => None,
        }
    }
}

} // verus!
