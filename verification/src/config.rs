use vstd::prelude::*;

verus! {

/// The persisted configuration.
pub struct Config {
    pub mods_dir: Option<String>,
    pub update_mirror: Option<String>,
    pub gamebanana_mirror: Option<String>,
}

/// A field of the configuration that `config show|set|unset` addresses.
#[derive(PartialEq, Eq, Structural, Debug, Clone, Copy)]
pub enum ConfigField {
    ModsDir,
    UpdateMirror,
    GamebananaMirror,
}

/// The name under which a field is shown.
pub open spec fn spec_field_name(field: ConfigField) -> Seq<char> {
    match field {
        ConfigField::ModsDir => "mods_dir"@,
        ConfigField::UpdateMirror => "update_mirror"@,
        ConfigField::GamebananaMirror => "gamebanana_mirror"@,
    }
}

/// The value of a field.
pub open spec fn spec_get(field: ConfigField, config: Config) -> Option<String> {
    match field {
        ConfigField::ModsDir => config.mods_dir,
        ConfigField::UpdateMirror => config.update_mirror,
        ConfigField::GamebananaMirror => config.gamebanana_mirror,
    }
}

/// The configuration with one field replaced.
pub open spec fn spec_with(field: ConfigField, config: Config, value: Option<String>) -> Config {
    match field {
        ConfigField::ModsDir => Config { mods_dir: value, ..config },
        ConfigField::UpdateMirror => Config { update_mirror: value, ..config },
        ConfigField::GamebananaMirror => Config { gamebanana_mirror: value, ..config },
    }
}

/// How `{:?}` renders a string (the standard library's `Debug` for `str`:
/// quoted, with special chars escaped).
pub uninterp spec fn debug_quoted(s: Seq<char>) -> Seq<char>;

/// Renders a string with `format!("{:?}", s)`, the standard library's
/// `Debug` formatting of `str`; the result is named, not described.
#[verifier::external_body]
fn debug_string(s: &str) -> (r: String)
    ensures
        r@ == debug_quoted(s@),
{
    format!("{:?}", s)
}

impl ConfigField {
    /// The name under which the field is shown.
    pub fn name(self) -> (r: &'static str)
        ensures
            r@ == spec_field_name(self),
    {
        match self {
            ConfigField::ModsDir => "mods_dir",
            ConfigField::UpdateMirror => "update_mirror",
            ConfigField::GamebananaMirror => "gamebanana_mirror",
        }
    }

    /// The value of the field in `config`.
    pub fn get(self, config: &Config) -> (r: Option<String>)
        ensures
            r == spec_get(self, *config),
    {
        match self {
            ConfigField::ModsDir => config.mods_dir.clone(),
            ConfigField::UpdateMirror => config.update_mirror.clone(),
            ConfigField::GamebananaMirror => config.gamebanana_mirror.clone(),
        }
    }

    /// Sets the field to `value`; the other fields are kept.
    pub fn set(self, config: &mut Config, value: String)
        ensures
            *final(config) == spec_with(self, *old(config), Some(value)),
    {
        match self {
            ConfigField::ModsDir => config.mods_dir = Some(value),
            ConfigField::UpdateMirror => config.update_mirror = Some(value),
            ConfigField::GamebananaMirror => config.gamebanana_mirror = Some(value),
        }
    }

    /// Clears the field; the other fields are kept.
    pub fn unset(self, config: &mut Config)
        ensures
            *final(config) == spec_with(self, *old(config), None),
    {
        match self {
            ConfigField::ModsDir => config.mods_dir = None,
            ConfigField::UpdateMirror => config.update_mirror = None,
            ConfigField::GamebananaMirror => config.gamebanana_mirror = None,
        }
    }
}

/// The line that shows one field: its name, ` = `, then the value as `{:?}`
/// renders it, or `None`.
pub open spec fn field_line(field: ConfigField, config: Config) -> Seq<char> {
    match spec_get(field, config) {
        Some(v) => spec_field_name(field) + " = "@ + debug_quoted(v@),
        None => spec_field_name(field) + " = None"@,
    }
}

/// The line that shows one field of `config`.
pub fn config_field_line(config: &Config, field: ConfigField) -> (r: String)
    ensures
        r@ == field_line(field, *config),
{
    match field.get(config) {
        Some(value) => {
            let mut line = String::from_str(field.name());
            line.append(" = ");
            let quoted = debug_string(value.as_str());
            line.append(quoted.as_str());
            line
        },
        None => {
            let mut line = String::from_str(field.name());
            line.append(" = None");
            line
        },
    }
}

/// The lines that show the whole configuration, one per field, in the
/// order `mods_dir`, `update_mirror`, `gamebanana_mirror`.
pub fn print_config(config: &Config) -> (r: Vec<String>)
    ensures
        r.len() == 3,
        r@[0]@ == field_line(ConfigField::ModsDir, *config),
        r@[1]@ == field_line(ConfigField::UpdateMirror, *config),
        r@[2]@ == field_line(ConfigField::GamebananaMirror, *config),
{
    let mut r: Vec<String> = Vec::new();
    r.push(config_field_line(config, ConfigField::ModsDir));
    r.push(config_field_line(config, ConfigField::UpdateMirror));
    r.push(config_field_line(config, ConfigField::GamebananaMirror));
    r
}

/// Reading a field after setting it gives the value set.
pub proof fn lemma_get_after_set(field: ConfigField, config: Config, value: String)
    ensures
        spec_get(field, spec_with(field, config, Some(value))) == Some(value),
{
}

/// Reading a field after clearing it gives nothing.
pub proof fn lemma_get_after_unset(field: ConfigField, config: Config)
    ensures
        spec_get(field, spec_with(field, config, None)) is None,
{
}

/// Setting or clearing one field leaves every other field as it was.
pub proof fn lemma_other_fields_kept(
    field: ConfigField,
    other: ConfigField,
    config: Config,
    value: Option<String>,
)
    requires
        field != other,
    ensures
        spec_get(other, spec_with(field, config, value)) == spec_get(other, config),
{
}

/// Each field addresses the entry of its own name: reading `mods_dir` gives
/// `config.mods_dir` (and so on), and setting or clearing a field writes that
/// entry alone, keeping the two others.
pub proof fn lemma_fields_address_own_entry(config: Config, value: Option<String>)
    ensures
        spec_get(ConfigField::ModsDir, config) == config.mods_dir,
        spec_get(ConfigField::UpdateMirror, config) == config.update_mirror,
        spec_get(ConfigField::GamebananaMirror, config) == config.gamebanana_mirror,
        spec_with(ConfigField::ModsDir, config, value).mods_dir == value,
        spec_with(ConfigField::ModsDir, config, value).update_mirror == config.update_mirror,
        spec_with(ConfigField::ModsDir, config, value).gamebanana_mirror == config.gamebanana_mirror,
        spec_with(ConfigField::UpdateMirror, config, value).update_mirror == value,
        spec_with(ConfigField::UpdateMirror, config, value).mods_dir == config.mods_dir,
        spec_with(ConfigField::UpdateMirror, config, value).gamebanana_mirror
            == config.gamebanana_mirror,
        spec_with(ConfigField::GamebananaMirror, config, value).gamebanana_mirror == value,
        spec_with(ConfigField::GamebananaMirror, config, value).mods_dir == config.mods_dir,
        spec_with(ConfigField::GamebananaMirror, config, value).update_mirror
            == config.update_mirror,
        spec_field_name(ConfigField::ModsDir) == "mods_dir"@,
        spec_field_name(ConfigField::UpdateMirror) == "update_mirror"@,
        spec_field_name(ConfigField::GamebananaMirror) == "gamebanana_mirror"@,
{
}

/// The mirror to use: the one given on the command line, else the one from
/// the environment, else the configured one, else the default.
pub fn select_mirror(
    given: Option<String>,
    from_env: Option<String>,
    configured: Option<String>,
    default: &str,
) -> (r: String)
    ensures
        r@ == match (given, from_env, configured) {
            (Some(m), _, _) => m@,
            (None, Some(m), _) => m@,
            (None, None, Some(m)) => m@,
            (None, None, None) => default@,
        },
{
    match given {
        Some(m) => m,
        None => match from_env {
            Some(m) => m,
            None => match configured {
                Some(m) => m,
                None => String::from_str(default),
            },
        },
    }
}

} // verus!
