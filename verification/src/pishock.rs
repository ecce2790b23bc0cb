//! PiShock devices: credentials, request bodies and answers.
use vstd::prelude::*;
use crate::share::{share_codes, spec_share_codes};
use crate::text::{
    append_chars, chars_of, clean, decimal, decimal_exec, is_control, replace_all, same_text, spec_is_control, string_of, trim, trim_bounds, views,
};


verus! {

/// A shocker the bridge can route contacts to.
pub struct Device {
    pub name: String,
    pub code: String,
}

impl Device {
    /// The text a device is shown with in diagnostics, `Device(name)`; the
    /// share code is left out.
    pub fn debug_text(&self) -> (t: String)
        ensures
            t@ == "Device("@ + self.name@ + ")"@,
    {
        let mut t = "Device(".to_owned();
        t.append(self.name.as_str());
        t.append(")");
        t
    }
}

/// The account a request is made for.
pub struct Auth {
    pub username: String,
    pub api_key: String,
    pub name: String,
}

/// Values from the environment that override the configuration file.
pub struct Env {
    pub username: Option<String>,
    pub api_key: Option<String>,
    pub name: Option<String>,
    pub share_code: Option<String>,
}

/// Why a configuration is refused.
pub enum ConfigError {
    /// The file is not an object, or `pishock` is not one.
    NoSection,
    /// The named field is present but not a string.
    NotText(String),
    /// The entry of `pishock.devices` at this index is not an object.
    DeviceNotObject(usize),
    /// `pishock.devices` is present but not an array.
    DevicesNotArray,
    /// Two devices would carry this name.
    DuplicateName(String),
}

/// The meaning of a `ConfigError`.
pub enum ConfigFault {
    NoSection,
    NotText(Seq<char>),
    DeviceNotObject(nat),
    DevicesNotArray,
    DuplicateName(Seq<char>),
}

impl View for ConfigError {
    type V = ConfigFault;

    open spec fn view(&self) -> ConfigFault {
        match self {
            ConfigError::NoSection => ConfigFault::NoSection,
            ConfigError::NotText(w) => ConfigFault::NotText(w@),
            ConfigError::DeviceNotObject(i) => ConfigFault::DeviceNotObject(*i as nat),
            ConfigError::DevicesNotArray => ConfigFault::DevicesNotArray,
            ConfigError::DuplicateName(n) => ConfigFault::DuplicateName(n@),
        }
    }
}

/// The view of an optional string.
pub open spec fn opt_view(o: Option<String>) -> Option<Seq<char>> {
    match o {
        Some(s) => Some(s@),
        None => None,
    }
}

/// A device as (name, share code).
pub open spec fn device_view(d: Device) -> (Seq<char>, Seq<char>) {
    (d.name@, d.code@)
}

/// The views of a list of devices.
pub open spec fn devices_view(ds: Seq<Device>) -> Seq<(Seq<char>, Seq<char>)> {
    ds.map_values(|d: Device| device_view(d))
}

/// The account as (username, api key, app name).
pub open spec fn auth_view(a: Auth) -> (Seq<char>, Seq<char>, Seq<char>) {
    (a.username@, a.api_key@, a.name@)
}

/// The configuration section: `Ok(None)` when absent.
pub open spec fn spec_section(config: crate::json::Json) -> Result<Option<crate::json::Json>, ConfigFault> {
    if !(config is Object) {
        Err(ConfigFault::NoSection)
    } else {
        match crate::json::spec_get(config, "pishock"@) {
            None => Ok(None),
            Some(v) => if v is Object {
                Ok(Some(v))
            } else {
                Err(ConfigFault::NoSection)
            },
        }
    }
}

/// A text field: absent gives `None`, a string its cleaned text, anything
/// else the error naming `what`.
pub open spec fn spec_text(value: Option<crate::json::Json>, what: Seq<char>) -> Result<Option<Seq<char>>, ConfigFault> {
    match value {
        None => Ok(None),
        Some(crate::json::Json::Str(s)) => Ok(clean(s@)),
        Some(_) => Err(ConfigFault::NotText(what)),
    }
}

/// The field of an optional section.
pub open spec fn section_field(section: Option<crate::json::Json>, field: Seq<char>) -> Option<crate::json::Json> {
    match section {
        Some(p) => crate::json::spec_get(p, field),
        None => None,
    }
}

/// An environment value counts when it is not blank, and is then trimmed.
pub open spec fn env_value(e: Option<Seq<char>>) -> Option<Seq<char>> {
    match e {
        Some(s) => if trim(s).len() > 0 {
            Some(trim(s))
        } else {
            None
        },
        None => None,
    }
}

/// A setting: the environment value when one counts, else the file's.
pub open spec fn spec_read(section: Option<crate::json::Json>, field: Seq<char>, env: Option<Seq<char>>) -> Result<Option<Seq<char>>, ConfigFault> {
    match spec_text(section_field(section, field), "pishock."@ + field) {
        Err(e) => Err(e),
        Ok(file) => Ok(
            match env_value(env) {
                Some(v) => Some(v),
                None => file,
            },
        ),
    }
}

/// Devices for the codes of one entry: the entry's name when it has one
/// code, else the name followed by ` 1`, ` 2`, ...
pub open spec fn named(name: Seq<char>, codes: Seq<Seq<char>>) -> Seq<(Seq<char>, Seq<char>)> {
    Seq::new(
        codes.len(),
        |i: int|
            (
                if codes.len() > 1 {
                    name + " "@ + decimal((i + 1) as nat)
                } else {
                    name
                },
                codes[i],
            ),
    )
}

/// The path of a field of an entry of `pishock.devices`.
pub open spec fn entry_path(i: nat, field: Seq<char>) -> Seq<char> {
    "pishock.devices["@ + decimal(i) + "]."@ + field
}

/// The devices one entry of `pishock.devices` yields.
pub open spec fn spec_entry(entry: crate::json::Json, i: nat) -> Result<Seq<(Seq<char>, Seq<char>)>, ConfigFault> {
    if !(entry is Object) {
        Err(ConfigFault::DeviceNotObject(i))
    } else {
        match spec_text(crate::json::spec_get(entry, "share_code"@), entry_path(i, "share_code"@)) {
            Err(e) => Err(e),
            Ok(code) => match spec_text(crate::json::spec_get(entry, "name"@), entry_path(i, "name"@)) {
                Err(e) => Err(e),
                Ok(name) => {
                    let name = match name {
                        Some(n) => n,
                        None => "Device "@ + decimal(i + 1),
                    };
                    match code {
                        Some(c) => Ok(named(name, spec_share_codes(c))),
                        None => Ok(Seq::empty()),
                    }
                },
            },
        }
    }
}

/// The devices the entries yield, in order; the first refused entry decides
/// the error.
pub open spec fn spec_entries(entries: Seq<crate::json::Json>) -> Result<Seq<(Seq<char>, Seq<char>)>, ConfigFault>
    decreases entries.len(),
{
    if entries.len() == 0 {
        Ok(Seq::empty())
    } else {
        match spec_entries(entries.drop_last()) {
            Err(e) => Err(e),
            Ok(ds) => match spec_entry(entries.last(), (entries.len() - 1) as nat) {
                Err(e) => Err(e),
                Ok(more) => Ok(ds + more),
            },
        }
    }
}

/// The devices under `pishock.devices`.
pub open spec fn spec_device_list(section: Option<crate::json::Json>) -> Result<Seq<(Seq<char>, Seq<char>)>, ConfigFault> {
    match section_field(section, "devices"@) {
        None => Ok(Seq::empty()),
        Some(crate::json::Json::Null) => Ok(Seq::empty()),
        Some(crate::json::Json::Array(es)) => spec_entries(es@),
        Some(_) => Err(ConfigFault::DevicesNotArray),
    }
}

/// The name of the first device whose name an earlier device already has.
pub open spec fn first_duplicate(ds: Seq<(Seq<char>, Seq<char>)>) -> Option<Seq<char>>
    decreases ds.len(),
{
    if ds.len() == 0 {
        None
    } else {
        match first_duplicate(ds.drop_last()) {
            Some(n) => Some(n),
            None => if exists|j: int| 0 <= j < ds.len() - 1 && ds[j].0 == ds.last().0 {
                Some(ds.last().0)
            } else {
                None
            },
        }
    }
}

/// The devices of the legacy single `share_code`.
pub open spec fn legacy_devices(code: Option<Seq<char>>) -> Seq<(Seq<char>, Seq<char>)> {
    match code {
        Some(c) => named("PiShock"@, spec_share_codes(c)),
        None => Seq::empty(),
    }
}

/// What a configuration and environment give: an error, nothing to send
/// with (`Ok(None)`), or the account and its devices.
pub open spec fn spec_credentials(config: crate::json::Json, env: (Option<Seq<char>>, Option<Seq<char>>, Option<Seq<char>>, Option<Seq<char>>)) -> Result<Option<((Seq<char>, Seq<char>, Seq<char>), Seq<(Seq<char>, Seq<char>)>)>, ConfigFault> {
    match spec_section(config) {
        Err(e) => Err(e),
        Ok(section) => match spec_read(section, "username"@, env.0) {
            Err(e) => Err(e),
            Ok(user) => match spec_read(section, "api_key"@, env.1) {
                Err(e) => Err(e),
                Ok(key) => match spec_read(section, "name"@, env.2) {
                    Err(e) => Err(e),
                    Ok(name) => match spec_read(section, "share_code"@, env.3) {
                        Err(e) => Err(e),
                        Ok(code) => match spec_device_list(section) {
                            Err(e) => Err(e),
                            Ok(more) => {
                                let all = legacy_devices(code) + more;
                                match first_duplicate(all) {
                                    Some(n) => Err(ConfigFault::DuplicateName(n)),
                                    None => if user is Some && key is Some && all.len() > 0 {
                                        Ok(
                                            Some(
                                                (
                                                    (
                                                        user->0,
                                                        key->0,
                                                        match name {
                                                            Some(n) => n,
                                                            None => "Pishock_bridge"@,
                                                        },
                                                    ),
                                                    all,
                                                ),
                                            ),
                                        )
                                    } else {
                                        Ok(None)
                                    },
                                }
                            },
                        },
                    },
                },
            },
        },
    }
}

/// The environment as plain values.
pub open spec fn env_view(env: Env) -> (Option<Seq<char>>, Option<Seq<char>>, Option<Seq<char>>, Option<Seq<char>>) {
    (opt_view(env.username), opt_view(env.api_key), opt_view(env.name), opt_view(env.share_code))
}


/// The cleaned text of `s`, unless it is empty or a placeholder.
pub fn clean_text(s: &str) -> (r: Option<String>)
    ensures
        opt_view(r) == clean(s@),
{
    let v = chars_of(s);
    let (a, b) = trim_bounds(&v, 0, v.len());
    assert(v@.subrange(0, v@.len() as int) =~= s@);
    if a < b && !(v[a] == '<' && v[b - 1] == '>') {
        Some(string_of(&v, a, b))
    } else {
        None
    }
}

/// An environment value, trimmed, when it is not blank.
fn env_pick(e: &Option<String>) -> (r: Option<String>)
    ensures
        opt_view(r) == env_value(opt_view(*e)),
{
    match e {
        Some(s) => {
            let v = chars_of(s.as_str());
            let (a, b) = trim_bounds(&v, 0, v.len());
            assert(v@.subrange(0, v@.len() as int) =~= s@);
            if a < b {
                Some(string_of(&v, a, b))
            } else {
                None
            }
        },
        None => None,
    }
}

/// The dereferenced value of an optional reference.
pub open spec fn deref_opt(o: Option<&crate::json::Json>) -> Option<crate::json::Json> {
    match o {
        Some(v) => Some(*v),
        None => None,
    }
}

/// The view of a result of the text fields.
pub open spec fn text_result_view(r: Result<Option<String>, ConfigError>) -> Result<Option<Seq<char>>, ConfigFault> {
    match r {
        Ok(o) => Ok(opt_view(o)),
        Err(e) => Err(e@),
    }
}

/// A text field, with `what` naming it in the error.
fn text_field(value: Option<&crate::json::Json>, what: String) -> (r: Result<Option<String>, ConfigError>)
    ensures
        text_result_view(r) == spec_text(deref_opt(value), what@),
{
    match value {
        None => Ok(None),
        Some(crate::json::Json::Str(s)) => Ok(clean_text(s.as_str())),
        Some(_) => Err(ConfigError::NotText(what)),
    }
}

/// A setting of the section, overridden by a non-blank environment value.
fn read_setting(section: Option<&crate::json::Json>, field: &str, env: &Option<String>) -> (r: Result<Option<String>, ConfigError>)
    ensures
        text_result_view(r) == spec_read(deref_opt(section), field@, opt_view(*env)),
{
    let value = match section {
        Some(p) => p.get(field),
        None => None,
    };
    let mut what = "pishock.".to_owned();
    what.append(field);
    match text_field(value, what) {
        Err(e) => Err(e),
        Ok(file) => match env_pick(env) {
            Some(v) => Ok(Some(v)),
            None => Ok(file),
        },
    }
}

/// Appends a device per code: the name itself for a single code, else the
/// name numbered from 1.
fn add_named(out: &mut Vec<Device>, name: &String, codes: Vec<String>)
    ensures
        devices_view(final(out)@) == devices_view(old(out)@) + named(name@, views(codes@)),
{
    let many = codes.len() > 1;
    let ghost start = out@;
    let ghost want = named(name@, views(codes@));
    let mut i: usize = 0;
    while i < codes.len()
        invariant
            i <= codes@.len(),
            many == (codes@.len() > 1),
            want == named(name@, views(codes@)),
            devices_view(out@) == devices_view(start) + want.take(i as int),
        decreases codes@.len() - i,
    {
        let label = if many {
            let mut l = name.clone();
            l.append(" ");
            let n = decimal_exec((i + 1) as u64);
            l.append(n.as_str());
            l
        } else {
            name.clone()
        };
        let code = codes[i].clone();
        let ghost before = out@;
        out.push(Device { name: label, code });
        proof {
            assert(devices_view(out@) =~= devices_view(before).push(want[i as int]));
            assert(want.take(i + 1) =~= want.take(i as int).push(want[i as int]));
        }
        i += 1;
    }
    assert(want.take(i as int) =~= want);
}

/// `"pishock.devices[i]."` followed by `field`.
fn entry_field_path(i: usize, field: &str) -> (r: String)
    ensures
        r@ == entry_path(i as nat, field@),
{
    let mut r = "pishock.devices[".to_owned();
    let n = decimal_exec(i as u64);
    r.append(n.as_str());
    r.append("].");
    r.append(field);
    r
}

/// Appends the devices of one entry of `pishock.devices`.
fn add_entry(out: &mut Vec<Device>, entry: &crate::json::Json, i: usize) -> (r: Result<(), ConfigError>)
    requires
        i < usize::MAX,
    ensures
        match spec_entry(*entry, i as nat) {
            Ok(more) => r is Ok && devices_view(final(out)@) == devices_view(old(out)@) + more,
            Err(e) => r matches Err(f) && f@ == e,
        },
{
    if !entry.is_object() {
        return Err(ConfigError::DeviceNotObject(i));
    }
    let code = match text_field(entry.get("share_code"), entry_field_path(i, "share_code")) {
        Err(e) => return Err(e),
        Ok(c) => c,
    };
    let name = match text_field(entry.get("name"), entry_field_path(i, "name")) {
        Err(e) => return Err(e),
        Ok(n) => n,
    };
    let name = match name {
        Some(n) => n,
        None => {
            let mut n = "Device ".to_owned();
            let d = decimal_exec((i + 1) as u64);
            n.append(d.as_str());
            n
        },
    };
    match code {
        Some(c) => {
            let codes = share_codes(c.as_str());
            add_named(out, &name, codes);
        },
        None => {
            assert(devices_view(out@) =~= devices_view(out@) + Seq::<(Seq<char>, Seq<char>)>::empty());
        },
    }
    Ok(())
}

/// The devices under `pishock.devices`, appended to `out`.
fn add_device_list(out: &mut Vec<Device>, section: Option<&crate::json::Json>) -> (r: Result<(), ConfigError>)
    ensures
        match spec_device_list(deref_opt(section)) {
            Ok(more) => r is Ok && devices_view(final(out)@) == devices_view(old(out)@) + more,
            Err(e) => r matches Err(f) && f@ == e,
        },
{
    let field = match section {
        Some(p) => p.get("devices"),
        None => None,
    };
    match field {
        None => {
            assert(devices_view(out@) =~= devices_view(out@) + Seq::<(Seq<char>, Seq<char>)>::empty());
            Ok(())
        },
        Some(crate::json::Json::Null) => {
            assert(devices_view(out@) =~= devices_view(out@) + Seq::<(Seq<char>, Seq<char>)>::empty());
            Ok(())
        },
        Some(crate::json::Json::Array(entries)) => {
            let ghost start = out@;
            let mut i: usize = 0;
            assert(entries@.take(0) =~= Seq::<crate::json::Json>::empty());
            assert(devices_view(out@) =~= devices_view(start) + Seq::<(Seq<char>, Seq<char>)>::empty());
            while i < entries.len()
                invariant
                    i <= entries@.len(),
                    spec_device_list(deref_opt(section)) == spec_entries(entries@),
                    spec_entries(entries@.take(i as int)) matches Ok(ds) && devices_view(out@) == devices_view(start) + ds,
                decreases entries@.len() - i,
            {
                let ghost before = out@;
                proof {
                    let t = entries@.take(i + 1);
                    assert(t.drop_last() =~= entries@.take(i as int));
                    assert(t.last() == entries@[i as int]);
                }
                match add_entry(out, &entries[i], i) {
                    Err(e) => {
                        proof {
                            lemma_entries_error_persists(entries@, (i + 1) as int);
                        }
                        return Err(e);
                    },
                    Ok(()) => {},
                }
                proof {
                    let ds = spec_entries(entries@.take(i as int))->Ok_0;
                    let more = spec_entry(entries@[i as int], i as nat)->Ok_0;
                    assert(devices_view(out@) =~= devices_view(start) + (ds + more));
                }
                i += 1;
            }
            assert(entries@.take(i as int) =~= entries@);
            Ok(())
        },
        Some(_) => Err(ConfigError::DevicesNotArray),
    }
}

proof fn lemma_entries_error_persists(entries: Seq<crate::json::Json>, k: int)
    requires
        0 <= k <= entries.len(),
        spec_entries(entries.take(k)) is Err,
    ensures
        spec_entries(entries) == spec_entries(entries.take(k)),
    decreases entries.len() - k,
{
    if k < entries.len() {
        let t = entries.take(k + 1);
        assert(t.drop_last() =~= entries.take(k));
        lemma_entries_error_persists(entries, k + 1);
    } else {
        assert(entries.take(k) =~= entries);
    }
}


proof fn lemma_duplicate_persists(ds: Seq<(Seq<char>, Seq<char>)>, k: int)
    requires
        0 <= k <= ds.len(),
        first_duplicate(ds.take(k)) is Some,
    ensures
        first_duplicate(ds) == first_duplicate(ds.take(k)),
    decreases ds.len() - k,
{
    if k < ds.len() {
        let t = ds.take(k + 1);
        assert(t.drop_last() =~= ds.take(k));
        lemma_duplicate_persists(ds, k + 1);
    } else {
        assert(ds.take(k) =~= ds);
    }
}

/// The name of the first device whose name an earlier device has.
fn duplicate_name(ds: &Vec<Device>) -> (r: Option<String>)
    ensures
        opt_view(r) == first_duplicate(devices_view(ds@)),
{
    let ghost dv = devices_view(ds@);
    let mut i: usize = 0;
    assert(dv.take(0) =~= Seq::<(Seq<char>, Seq<char>)>::empty());
    while i < ds.len()
        invariant
            i <= ds@.len(),
            dv == devices_view(ds@),
            first_duplicate(dv.take(i as int)) is None,
        decreases ds@.len() - i,
    {
        let ghost t = dv.take(i + 1);
        proof {
            assert(t.drop_last() =~= dv.take(i as int));
            assert(t.last() == dv[i as int]);
        }
        let mut j: usize = 0;
        while j < i
            invariant
                j <= i < ds@.len(),
                dv == devices_view(ds@),
                t == dv.take(i + 1),
                t.drop_last() == dv.take(i as int),
                t.last() == dv[i as int],
                first_duplicate(dv.take(i as int)) is None,
                forall|k: int| 0 <= k < j ==> t[k].0 != t.last().0,
            decreases i - j,
        {
            if same_text(ds[j].name.as_str(), ds[i].name.as_str()) {
                proof {
                    assert(t[j as int].0 == t.last().0);
                    assert(first_duplicate(t) == Some(dv[i as int].0));
                    lemma_duplicate_persists(dv, i + 1);
                }
                return Some(ds[i].name.clone());
            }
            j += 1;
        }
        assert(first_duplicate(t) is None);
        i += 1;
    }
    assert(dv.take(i as int) =~= dv);
    None
}

/// The configured account and its devices.
pub struct PiShock {
    pub auth: Auth,
    pub devices: Vec<Device>,
}

/// What a configuration result amounts to.
pub open spec fn config_result_view(r: Result<Option<PiShock>, ConfigError>) -> Result<Option<((Seq<char>, Seq<char>, Seq<char>), Seq<(Seq<char>, Seq<char>)>)>, ConfigFault> {
    match r {
        Err(e) => Err(e@),
        Ok(None) => Ok(None),
        Ok(Some(p)) => Ok(Some((auth_view(p.auth), devices_view(p.devices@)))),
    }
}

/// The account and devices a configuration file and the environment give.
///
/// `config` is the parsed file (an empty object when there is none).
/// Without a username, an API key and at least one device the result is
/// `Ok(None)`: the bridge then only monitors.
pub fn credentials(config: &crate::json::Json, env: &Env) -> (r: Result<Option<PiShock>, ConfigError>)
    ensures
        config_result_view(r) == spec_credentials(*config, env_view(*env)),
{
    if !config.is_object() {
        return Err(ConfigError::NoSection);
    }
    let section = match config.get("pishock") {
        None => None,
        Some(v) => {
            if !v.is_object() {
                return Err(ConfigError::NoSection);
            }
            Some(v)
        },
    };
    assert(spec_section(*config) == Ok::<Option<crate::json::Json>, ConfigFault>(deref_opt(section)));
    let username = match read_setting(section, "username", &env.username) {
        Err(e) => return Err(e),
        Ok(v) => v,
    };
    let api_key = match read_setting(section, "api_key", &env.api_key) {
        Err(e) => return Err(e),
        Ok(v) => v,
    };
    let name = match read_setting(section, "name", &env.name) {
        Err(e) => return Err(e),
        Ok(v) => v,
    };
    let code = match read_setting(section, "share_code", &env.share_code) {
        Err(e) => return Err(e),
        Ok(v) => v,
    };
    let mut devices: Vec<Device> = Vec::new();
    match code {
        Some(c) => {
            let codes = share_codes(c.as_str());
            let label = "PiShock".to_owned();
            add_named(&mut devices, &label, codes);
        },
        None => {},
    }
    assert(devices_view(devices@) =~= legacy_devices(opt_view(code)));
    match add_device_list(&mut devices, section) {
        Err(e) => return Err(e),
        Ok(()) => {},
    }
    match duplicate_name(&devices) {
        Some(n) => return Err(ConfigError::DuplicateName(n)),
        None => {},
    }
    let name = match name {
        Some(n) => n,
        None => "Pishock_bridge".to_owned(),
    };
    match (username, api_key) {
        (Some(username), Some(api_key)) => {
            if devices.len() > 0 {
                Ok(Some(PiShock { auth: Auth { username, api_key, name }, devices }))
            } else {
                Ok(None)
            }
        },
        _ => Ok(None),
    }
}


/// A JSON document as serde_json holds it.
#[verifier::external_type_specification]
#[verifier::external_body]
pub struct ExSerdeValue(serde_json::Value);

/// What `serde_json::from_str::<serde_json::Value>` parses `text` to, as a
/// `Json`, when `text` is one JSON document.
pub uninterp spec fn json_text_value(text: Seq<char>) -> Option<crate::json::Json>;

/// A serde_json document as a `Json`, variant for variant.
#[verifier::external_body]
fn json_of(v: &serde_json::Value) -> crate::json::Json {
    match v {
        serde_json::Value::Null => crate::json::Json::Null,
        serde_json::Value::Bool(b) => crate::json::Json::Bool(*b),
        serde_json::Value::Number(_) => crate::json::Json::Number,
        serde_json::Value::String(t) => crate::json::Json::Str(t.clone()),
        serde_json::Value::Array(a) => crate::json::Json::Array(a.iter().map(json_of).collect()),
        serde_json::Value::Object(m) => crate::json::Json::Object(
            m.iter().map(|(k, x)| crate::json::Member { key: k.clone(), value: json_of(x) }).collect(),
        ),
    }
}

/// Parses `text` as one JSON document.
///
/// Calls `serde_json::from_str::<serde_json::Value>`, whose result depends
/// on `text` alone, and converts the document variant for variant; the
/// contract only names that result. Numbers are carried without their value.
#[verifier::external_body]
fn parse_json(text: &str) -> (r: Option<crate::json::Json>)
    ensures
        r == json_text_value(text@),
{
    serde_json::from_str::<serde_json::Value>(text).ok().map(|v| json_of(&v))
}

/// Why `config.json` gives no configuration.
pub enum LoadError {
    /// The file is not one JSON document.
    InvalidJson,
    /// The document is refused.
    Config(ConfigError),
}

impl LoadError {
    /// The text this error is shown with.
    pub fn message(&self) -> (m: String)
        ensures
            m@ == match self {
                LoadError::InvalidJson => "config.json contains invalid JSON"@,
                LoadError::Config(e) => config_message(e@),
            },
    {
        match self {
            LoadError::InvalidJson => "config.json contains invalid JSON".to_owned(),
            LoadError::Config(e) => e.message(),
        }
    }
}

/// The configuration an absent `config.json` stands for: an empty object.
pub open spec fn empty_config() -> crate::json::Json {
    crate::json::Json::Object(choose|v: Vec<crate::json::Member>| v@.len() == 0)
}

/// What a load result amounts to: the configuration's view, or the
/// refusal (`None` for text that is not JSON).
pub open spec fn load_view(r: Result<Option<PiShock>, LoadError>) -> Result<Option<((Seq<char>, Seq<char>, Seq<char>), Seq<(Seq<char>, Seq<char>)>)>, Option<ConfigFault>> {
    match r {
        Ok(o) => Ok(config_result_view(Ok(o))->Ok_0),
        Err(LoadError::InvalidJson) => Err(None),
        Err(LoadError::Config(e)) => Err(Some(e@)),
    }
}

/// A configuration result with its refusal marked as one of the document.
pub open spec fn config_refused(r: Result<Option<((Seq<char>, Seq<char>, Seq<char>), Seq<(Seq<char>, Seq<char>)>)>, ConfigFault>) -> Result<Option<((Seq<char>, Seq<char>, Seq<char>), Seq<(Seq<char>, Seq<char>)>)>, Option<ConfigFault>> {
    match r {
        Ok(o) => Ok(o),
        Err(f) => Err(Some(f)),
    }
}

/// What the text of `config.json` (`None` when there is no such file) and
/// the environment give: text that is not JSON is refused, else the
/// document, or an empty object for no file, is judged by `credentials`.
pub open spec fn spec_load(text: Option<Seq<char>>, env: (Option<Seq<char>>, Option<Seq<char>>, Option<Seq<char>>, Option<Seq<char>>)) -> Result<Option<((Seq<char>, Seq<char>, Seq<char>), Seq<(Seq<char>, Seq<char>)>)>, Option<ConfigFault>> {
    match text {
        Some(t) => match json_text_value(t) {
            None => Err(None),
            Some(c) => config_refused(spec_credentials(c, env)),
        },
        None => config_refused(spec_credentials(empty_config(), env)),
    }
}

/// The account and devices from the text of `config.json` (`None` when
/// there is no such file) and the environment.
pub fn load_config(text: Option<&str>, env: &Env) -> (r: Result<Option<PiShock>, LoadError>)
    ensures
        load_view(r) == spec_load(
            match text {
                Some(t) => Some(t@),
                None => None,
            },
            env_view(*env),
        ),
{
    let config = match text {
        Some(t) => match parse_json(t) {
            Some(c) => c,
            None => return Err(LoadError::InvalidJson),
        },
        None => {
            let none: Vec<crate::json::Member> = Vec::new();
            assert(none@.len() == 0);
            crate::json::Json::Object(none)
        },
    };
    proof {
        if text is None {
            let w = choose|v: Vec<crate::json::Member>| v@.len() == 0;
            assert(w@.len() == 0);
            assert(spec_section(config) == Ok::<Option<crate::json::Json>, ConfigFault>(None));
            assert(spec_section(empty_config()) == Ok::<Option<crate::json::Json>, ConfigFault>(None));
            assert(spec_credentials(config, env_view(*env)) == spec_credentials(empty_config(), env_view(*env)));
        }
    }
    match credentials(&config, env) {
        Ok(o) => Ok(o),
        Err(e) => Err(LoadError::Config(e)),
    }
}

/// What `serde_json::from_str::<String>` decodes `text` to, when `text` is
/// a JSON string literal.
pub uninterp spec fn json_string_text(text: Seq<char>) -> Option<Seq<char>>;

/// Decodes `text` as a JSON string literal.
///
/// Calls `serde_json::from_str::<String>`, a parser whose result depends on
/// `text` alone; the contract only names that result.
#[verifier::external_body]
fn decode_json_string(text: &str) -> (r: Option<String>)
    ensures
        opt_view(r) == json_string_text(text@),
{
    serde_json::from_str::<String>(text).ok()
}

/// The answer texts that mean the operation was taken.
pub open spec fn is_accepted(t: Seq<char>) -> bool {
    t == "Operation Attempted."@ || t == "Operation Succeeded."@
}

/// `s` with each non-empty secret, in order, replaced by `[redacted]`.
pub open spec fn redact(s: Seq<char>, secrets: Seq<Seq<char>>) -> Seq<char>
    decreases secrets.len(),
{
    if secrets.len() == 0 {
        s
    } else {
        let r = redact(s, secrets.drop_last());
        if secrets.last().len() > 0 {
            replace_all(r, secrets.last(), "[redacted]"@)
        } else {
            r
        }
    }
}

/// `s` with control characters blanked, cut to its first 300 characters.
pub open spec fn scrub(s: Seq<char>) -> Seq<char> {
    let blanked = s.map_values(|c: char| if spec_is_control(c) { ' ' } else { c });
    if blanked.len() <= 300 {
        blanked
    } else {
        blanked.take(300)
    }
}

/// The refusal message for a status and decoded answer.
pub open spec fn refusal(status: u16, decoded: Seq<char>, secrets: Seq<Seq<char>>) -> Seq<char> {
    let safe = trim(scrub(redact(decoded, secrets)));
    "PiShock HTTP "@ + decimal(status as nat) + ": "@ + if safe.len() == 0 {
        "empty response"@
    } else {
        safe
    }
}

/// Whether an answer means the operation was taken: a 2xx status with an
/// accepted text.
pub open spec fn answer_ok(status: u16, decoded: Seq<char>) -> bool {
    200 <= status < 300 && is_accepted(trim(decoded))
}

/// The answer text: the decoded JSON string, or the raw text when it is
/// not one.
pub open spec fn answer_text(response: Seq<char>) -> Seq<char> {
    match json_string_text(response) {
        Some(t) => t,
        None => response,
    }
}

/// The view of a check result.
pub open spec fn check_view(r: Result<(), String>) -> Option<Seq<char>> {
    match r {
        Ok(()) => None,
        Err(m) => Some(m@),
    }
}

/// The text with each non-empty secret redacted.
fn redact_exec(text: &Vec<char>, secrets: &Vec<String>) -> (r: Vec<char>)
    ensures
        r@ == redact(text@, views(secrets@)),
{
    let mut cur = sub_vec_all(text);
    let mark = chars_of("[redacted]");
    let mut i: usize = 0;
    while i < secrets.len()
        invariant
            i <= secrets@.len(),
            mark@ == "[redacted]"@,
            cur@ == redact(text@, views(secrets@).take(i as int)),
        decreases secrets@.len() - i,
    {
        proof {
            let t = views(secrets@).take(i + 1);
            assert(t.drop_last() =~= views(secrets@).take(i as int));
            assert(t.last() == secrets@[i as int]@);
        }
        let secret = chars_of(secrets[i].as_str());
        if secret.len() > 0 {
            cur = crate::text::replace_exec(&cur, &secret, &mark);
        }
        i += 1;
    }
    assert(views(secrets@).take(i as int) =~= views(secrets@));
    cur
}

/// A copy of `v`.
fn sub_vec_all(v: &Vec<char>) -> (r: Vec<char>)
    ensures
        r@ == v@,
{
    let r = crate::share::sub_vec(v, 0, v.len());
    assert(v@.subrange(0, v@.len() as int) =~= v@);
    r
}

/// The text with control characters blanked, cut to 300 characters.
fn scrub_exec(text: &Vec<char>) -> (r: Vec<char>)
    ensures
        r@ == scrub(text@),
{
    let ghost blanked = text@.map_values(|c: char| if spec_is_control(c) { ' ' } else { c });
    let n = if text.len() <= 300 {
        text.len()
    } else {
        300
    };
    let mut r: Vec<char> = Vec::new();
    let mut i: usize = 0;
    while i < n
        invariant
            i <= n <= text@.len(),
            n == if text@.len() <= 300 { text@.len() } else { 300 },
            blanked == text@.map_values(|c: char| if spec_is_control(c) { ' ' } else { c }),
            r@ == blanked.take(i as int),
        decreases n - i,
    {
        let c = text[i];
        let d = if is_control(c) {
            ' '
        } else {
            c
        };
        r.push(d);
        i += 1;
        assert(r@ =~= blanked.take(i as int));
    }
    assert(blanked.len() == text@.len());
    if text.len() <= 300 {
        assert(blanked.take(i as int) =~= blanked);
    }
    r
}

/// Judges the decoded answer PiShock gave with a status: `Ok` when the
/// operation was taken, else the message to show, with secrets redacted.
pub fn check_decoded(status: u16, decoded: &str, secrets: &Vec<String>) -> (r: Result<(), String>)
    ensures
        answer_ok(status, decoded@) ==> r is Ok,
        !answer_ok(status, decoded@) ==> check_view(r) == Some(refusal(status, decoded@, views(secrets@))),
{
    let text = chars_of(decoded);
    let (a, b) = trim_bounds(&text, 0, text.len());
    assert(text@.subrange(0, text@.len() as int) =~= decoded@);
    let trimmed = crate::share::sub_vec(&text, a, b);
    let attempted = chars_of("Operation Attempted.");
    let succeeded = chars_of("Operation Succeeded.");
    if 200 <= status && status < 300 && (crate::text::chars_equal(&trimmed, &attempted)
        || crate::text::chars_equal(&trimmed, &succeeded)) {
        return Ok(());
    }
    let redacted = redact_exec(&text, secrets);
    let scrubbed = scrub_exec(&redacted);
    let (sa, sb) = trim_bounds(&scrubbed, 0, scrubbed.len());
    assert(scrubbed@.subrange(0, scrubbed@.len() as int) =~= scrubbed@);
    let mut message = "PiShock HTTP ".to_owned();
    let digits = decimal_exec(status as u64);
    message.append(digits.as_str());
    message.append(": ");
    if sa == sb {
        message.append("empty response");
    } else {
        append_chars(&mut message, &scrubbed, sa, sb);
    }
    Err(message)
}

/// Judges PiShock's answer: the body is decoded as a JSON string when it
/// is one, then judged as by `check_decoded`.
pub fn check_response(status: u16, response: &str, secrets: &Vec<String>) -> (r: Result<(), String>)
    ensures
        answer_ok(status, answer_text(response@)) ==> r is Ok,
        !answer_ok(status, answer_text(response@)) ==> check_view(r) == Some(
            refusal(status, answer_text(response@), views(secrets@)),
        ),
{
    match decode_json_string(response) {
        Some(text) => check_decoded(status, text.as_str(), secrets),
        None => check_decoded(status, response, secrets),
    }
}


/// The text a configuration error is shown with.
pub open spec fn config_message(e: ConfigFault) -> Seq<char> {
    match e {
        ConfigFault::NoSection => "config.json must contain a pishock object"@,
        ConfigFault::NotText(what) => "config.json: "@ + what + " must be a string"@,
        ConfigFault::DeviceNotObject(i) => "config.json: pishock.devices["@ + decimal(i) + "] must be an object"@,
        ConfigFault::DevicesNotArray => "config.json: pishock.devices must be an array"@,
        ConfigFault::DuplicateName(n) => "config.json: duplicate device name "@ + n,
    }
}

impl ConfigError {
    /// The text this error is shown with.
    pub fn message(&self) -> (m: String)
        ensures
            m@ == config_message(self@),
    {
        match self {
            ConfigError::NoSection => "config.json must contain a pishock object".to_owned(),
            ConfigError::NotText(what) => {
                let mut m = "config.json: ".to_owned();
                m.append(what.as_str());
                m.append(" must be a string");
                m
            },
            ConfigError::DeviceNotObject(i) => {
                let mut m = "config.json: pishock.devices[".to_owned();
                let d = decimal_exec(*i as u64);
                m.append(d.as_str());
                m.append("] must be an object");
                m
            },
            ConfigError::DevicesNotArray => "config.json: pishock.devices must be an array".to_owned(),
            ConfigError::DuplicateName(n) => {
                let mut m = "config.json: duplicate device name ".to_owned();
                m.append(n.as_str());
                m
            },
        }
    }
}

/// The body of an operate request, without the transport.
pub struct Payload {
    pub username: String,
    pub apikey: String,
    pub name: String,
    pub code: String,
    pub op: u8,
    pub duration: u8,
    pub intensity: u8,
    pub random: bool,
    pub scale: bool,
}

/// Why a request cannot be made.
pub enum RequestError {
    /// No device carries this name.
    UnknownDevice(String),
    /// The operation, intensity or duration is out of range.
    InvalidSettings,
}

/// Whether PiShock accepts these settings: op 0 (shock), 1 (vibrate) or
/// 2 (beep), intensity 1 to 100, duration 1 to 15 seconds.
pub open spec fn valid_settings(op: u8, intensity: u8, duration: u8) -> bool {
    op <= 2 && 1 <= intensity <= 100 && 1 <= duration <= 15
}

/// The index of the first device named `name`.
pub open spec fn device_index(ds: Seq<Device>, name: Seq<char>) -> Option<int> {
    if exists|i: int| 0 <= i < ds.len() && ds[i].name@ == name {
        Some(choose|i: int| 0 <= i < ds.len() && ds[i].name@ == name && forall|j: int| 0 <= j < i ==> ds[j].name@ != name)
    } else {
        None
    }
}

/// The text a request error is shown with.
pub open spec fn request_message(e: RequestError) -> Seq<char> {
    match e {
        RequestError::UnknownDevice(n) => "Unknown device "@ + n@,
        RequestError::InvalidSettings => "Invalid operation, intensity or duration"@,
    }
}

impl RequestError {
    /// The text this error is shown with.
    pub fn message(&self) -> (m: String)
        ensures
            m@ == request_message(*self),
    {
        match self {
            RequestError::UnknownDevice(n) => {
                let mut m = "Unknown device ".to_owned();
                m.append(n.as_str());
                m
            },
            RequestError::InvalidSettings => "Invalid operation, intensity or duration".to_owned(),
        }
    }
}

proof fn lemma_views_push(v: Seq<String>, x: String)
    ensures
        views(v.push(x)) == views(v).push(x@),
{
    assert(views(v.push(x)) =~= views(v).push(x@));
}

impl PiShock {
    /// The index of the first device named `device`.
    pub fn find_device(&self, device: &str) -> (r: Option<usize>)
        ensures
            r matches Some(i) ==> device_index(self.devices@, device@) == Some(i as int) && i < self.devices@.len(),
            r is None ==> device_index(self.devices@, device@) is None,
    {
        let mut i: usize = 0;
        while i < self.devices.len()
            invariant
                i <= self.devices@.len(),
                forall|j: int| 0 <= j < i ==> self.devices@[j].name@ != device@,
            decreases self.devices@.len() - i,
        {
            if same_text(self.devices[i].name.as_str(), device) {
                proof {
                    let w = choose|w: int| 0 <= w < self.devices@.len() && self.devices@[w].name@ == device@ && forall|j: int| 0 <= j < w ==> self.devices@[j].name@ != device@;
                    assert(0 <= i < self.devices@.len() && self.devices@[i as int].name@ == device@);
                    if w < i {
                        assert(self.devices@[w].name@ != device@);
                    } else if w > i {
                        assert(self.devices@[i as int].name@ != device@);
                    }
                }
                return Some(i);
            }
            i += 1;
        }
        None
    }

    /// The names of the devices, in configuration order.
    pub fn device_names(&self) -> (names: Vec<String>)
        ensures
            views(names@) == self.devices@.map_values(|d: Device| d.name@),
    {
        let mut names: Vec<String> = Vec::new();
        let mut i: usize = 0;
        while i < self.devices.len()
            invariant
                i <= self.devices@.len(),
                views(names@) == self.devices@.map_values(|d: Device| d.name@).take(i as int),
            decreases self.devices@.len() - i,
        {
            let ghost before = names@;
            let n = self.devices[i].name.clone();
            names.push(n);
            proof {
                lemma_views_push(before, n);
            }
            i += 1;
            assert(views(names@) =~= self.devices@.map_values(|d: Device| d.name@).take(i as int));
        }
        assert(self.devices@.map_values(|d: Device| d.name@).take(i as int) =~= self.devices@.map_values(|d: Device| d.name@));
        names
    }

    /// The texts an answer must not show: the API key, the username and
    /// every share code.
    pub fn secrets(&self) -> (s: Vec<String>)
        ensures
            views(s@) == seq![self.auth.api_key@, self.auth.username@] + self.devices@.map_values(|d: Device| d.code@),
    {
        let mut s: Vec<String> = Vec::new();
        s.push(self.auth.api_key.clone());
        s.push(self.auth.username.clone());
        let mut i: usize = 0;
        while i < self.devices.len()
            invariant
                i <= self.devices@.len(),
                views(s@) == seq![self.auth.api_key@, self.auth.username@] + self.devices@.map_values(|d: Device| d.code@).take(i as int),
            decreases self.devices@.len() - i,
        {
            let ghost before = s@;
            let c = self.devices[i].code.clone();
            s.push(c);
            proof {
                lemma_views_push(before, c);
            }
            i += 1;
            assert(views(s@) =~= seq![self.auth.api_key@, self.auth.username@] + self.devices@.map_values(|d: Device| d.code@).take(i as int));
        }
        assert(self.devices@.map_values(|d: Device| d.code@).take(i as int) =~= self.devices@.map_values(|d: Device| d.code@));
        s
    }

    /// The body for an operation on the named device: an unknown name or
    /// settings out of range are refused. A beep is sent with intensity 0.
    pub fn request(&self, device: &str, op: u8, intensity: u8, duration: u8) -> (r: Result<Payload, RequestError>)
        ensures
            device_index(self.devices@, device@) is None ==> (r matches Err(RequestError::UnknownDevice(n)) && n@ == device@),
            device_index(self.devices@, device@) is Some && !valid_settings(op, intensity, duration) ==> r matches Err(RequestError::InvalidSettings),
            device_index(self.devices@, device@) is Some && valid_settings(op, intensity, duration) ==> (r matches Ok(p) && {
                &&& p.username@ == self.auth.username@
                &&& p.apikey@ == self.auth.api_key@
                &&& p.name@ == self.auth.name@
                &&& p.code@ == self.devices@[device_index(self.devices@, device@)->0].code@
                &&& p.op == op
                &&& p.duration == duration
                &&& p.intensity == if op == 2 { 0 } else { intensity }
                &&& !p.random
                &&& !p.scale
            }),
    {
        let i = match self.find_device(device) {
            None => return Err(RequestError::UnknownDevice(device.to_owned())),
            Some(i) => i,
        };
        if op > 2 || intensity < 1 || intensity > 100 || duration < 1 || duration > 15 {
            return Err(RequestError::InvalidSettings);
        }
        Ok(Payload {
            username: self.auth.username.clone(),
            apikey: self.auth.api_key.clone(),
            name: self.auth.name.clone(),
            code: self.devices[i].code.clone(),
            op,
            duration,
            intensity: if op == 2 { 0 } else { intensity },
            random: false,
            scale: false,
        })
    }
}

} // verus!
