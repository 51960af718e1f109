//! Runtime settings resolved from the process environment plus an optional
//! env file: the environment wins over the file, both win over defaults.

use vstd::prelude::*;
use crate::keyed::KeyedList;
use crate::text::{
    TrimSet, first_index, parse_unsigned, parse_unsigned_at_most, split_once,
    split_once_spec, starts_with_char, trim, trim_by, trim_matches, chars_of, string_of,
};

verus! {

/// The settings of the browser.
#[derive(Clone, Debug)]
pub struct Config {
    pub host: String,
    pub port: String,
    pub user: String,
    pub password: String,
    pub gui_port: u16,
    pub bind: String,
    pub row_cap: usize,
    pub sort_cap: usize,
}

/// The effect of one env file line: blank lines and `#` comments are skipped,
/// `KEY=VALUE` sets the trimmed key to the trimmed value stripped of
/// surrounding double, then single quotes; a line without `=` is skipped.
pub open spec fn apply_line(m: Map<Seq<char>, Seq<char>>, line: Seq<char>) -> Map<Seq<char>, Seq<char>> {
    let l = trim_by(line, TrimSet::WhiteSpace);
    if l.len() == 0 || l[0] == '#' {
        m
    } else {
        match split_once_spec(l, '=') {
            Some((k, v)) => m.insert(
                trim_by(k, TrimSet::WhiteSpace),
                trim_by(trim_by(trim_by(v, TrimSet::WhiteSpace), TrimSet::Char('"')), TrimSet::Char('\'')),
            ),
            None => m,
        }
    }
}

/// The settings of the lines of `s` applied in order, after `m`.
pub open spec fn settings_after(m: Map<Seq<char>, Seq<char>>, s: Seq<char>) -> Map<Seq<char>, Seq<char>>
    decreases s.len(),
{
    proof {
        crate::text::lemma_first_index_bound(s, '\n');
    }
    match first_index(s, '\n') {
        Some(i) => settings_after(apply_line(m, s.take(i as int)), s.skip(i as int + 1)),
        None => apply_line(m, s),
    }
}

/// The settings of an env file: later lines override earlier ones.
pub open spec fn env_file_settings(body: Seq<char>) -> Map<Seq<char>, Seq<char>> {
    settings_after(Map::empty(), body)
}

/// The view of a map of strings.
pub open spec fn text_map(m: Map<Seq<char>, String>) -> Map<Seq<char>, Seq<char>> {
    m.map_values(|v: String| v@)
}

fn apply_line_exec(values: &mut KeyedList<String>, line: &str)
    ensures
        text_map(final(values)@) == apply_line(text_map(old(values)@), line@),
{
    let l = trim(line);
    if l.unicode_len() == 0 || starts_with_char(l.as_str(), '#') {
        return;
    }
    match split_once(l.as_str(), '=') {
        Some((k, v)) => {
            let key = trim(k.as_str());
            let v1 = trim(v.as_str());
            let v2 = trim_matches(v1.as_str(), '"');
            let cleaned = trim_matches(v2.as_str(), '\'');
            let ghost before = values@;
            values.insert(key, cleaned);
            assert(text_map(values@) =~= text_map(before).insert(key@, cleaned@));
        },
        None => {},
    }
}

/// Parses an env file body of `KEY=VALUE` lines, ignoring comments and blanks.
pub fn parse_env_file(body: &str) -> (r: KeyedList<String>)
    ensures
        text_map(r@) == env_file_settings(body@),
{
    let v = chars_of(body);
    let n = v.len();
    let mut values: KeyedList<String> = KeyedList::new();
    assert(text_map(values@) =~= Map::<Seq<char>, Seq<char>>::empty());
    let mut start: usize = 0;
    let mut i: usize = 0;
    assert(v@.skip(0) =~= v@);
    while i < n
        invariant
            start <= i <= n,
            n == v@.len(),
            v@ == body@,
            forall|j: int| start <= j < i ==> v@[j] != '\n',
            env_file_settings(body@) == settings_after(text_map(values@), v@.skip(start as int)),
        decreases n - i,
    {
        if v[i] == '\n' {
            let mut seg: Vec<char> = Vec::new();
            let mut k: usize = start;
            while k < i
                invariant
                    start <= k <= i < n,
                    n == v@.len(),
                    seg@ == v@.subrange(start as int, k as int),
                decreases i - k,
            {
                seg.push(v[k]);
                k += 1;
                assert(seg@ =~= v@.subrange(start as int, k as int));
            }
            let line = string_of(&seg);
            proof {
                let rest = v@.skip(start as int);
                crate::text::lemma_first_index_at(rest, '\n', i - start);
                assert(rest.take(i - start) =~= seg@);
                assert(rest.skip(i - start + 1) =~= v@.skip(i + 1));
            }
            apply_line_exec(&mut values, line.as_str());
            start = i + 1;
        }
        i += 1;
    }
    let mut seg: Vec<char> = Vec::new();
    let mut k: usize = start;
    while k < n
        invariant
            start <= k <= n,
            n == v@.len(),
            seg@ == v@.subrange(start as int, k as int),
        decreases n - k,
    {
        seg.push(v[k]);
        k += 1;
        assert(seg@ =~= v@.subrange(start as int, k as int));
    }
    let line = string_of(&seg);
    proof {
        let rest = v@.skip(start as int);
        crate::text::lemma_no_index(rest, '\n');
        assert(rest =~= seg@);
    }
    apply_line_exec(&mut values, line.as_str());
    values
}

/// An env file read in two parts separated by a line break has the settings
/// of the first part, overridden by those of the second.
pub proof fn law_env_file_parts(m: Map<Seq<char>, Seq<char>>, a: Seq<char>, b: Seq<char>)
    ensures
        settings_after(m, a + seq!['\n'] + b) == settings_after(settings_after(m, a), b),
    decreases a.len(),
{
    let s = a + seq!['\n'] + b;
    crate::text::lemma_first_index_props(a, '\n');
    match first_index(a, '\n') {
        Some(i) => {
            crate::text::lemma_first_index_at(s, '\n', i as int);
            assert(s.take(i as int) =~= a.take(i as int));
            assert(s.skip(i as int + 1) =~= a.skip(i as int + 1) + seq!['\n'] + b);
            law_env_file_parts(apply_line(m, a.take(i as int)), a.skip(i as int + 1), b);
        },
        None => {
            crate::text::lemma_first_index_at(s, '\n', a.len() as int);
            assert(s.take(a.len() as int) =~= a);
            assert(s.skip(a.len() as int + 1) =~= b);
        },
    }
}

/// Blank lines and comment lines set nothing.
pub proof fn law_comments_and_blanks_ignored(m: Map<Seq<char>, Seq<char>>, line: Seq<char>)
    requires
        trim_by(line, TrimSet::WhiteSpace).len() == 0 || trim_by(line, TrimSet::WhiteSpace)[0] == '#',
    ensures
        apply_line(m, line) == m,
{
}

/// The process environment wins over the env file, and both win over the
/// default; an empty value counts as unset.
pub proof fn law_setting_precedence(
    env: Map<Seq<char>, Seq<char>>,
    file: Map<Seq<char>, Seq<char>>,
    key: Seq<char>,
    fallback: Seq<char>,
)
    ensures
        env.contains_key(key) && env[key].len() > 0 ==> setting(env, file, key, fallback) == env[key],
        !(env.contains_key(key) && env[key].len() > 0) && file.contains_key(key) && file[key].len() > 0
            ==> setting(env, file, key, fallback) == file[key],
        !(env.contains_key(key) && env[key].len() > 0) && !(file.contains_key(key) && file[key].len() > 0)
            ==> setting(env, file, key, fallback) == fallback,
{
}

/// A setting: the process environment's value if set and not empty, else the
/// env file's value if set and not empty, else the default.
pub open spec fn setting(
    env: Map<Seq<char>, Seq<char>>,
    file: Map<Seq<char>, Seq<char>>,
    key: Seq<char>,
    fallback: Seq<char>,
) -> Seq<char> {
    if env.contains_key(key) && env[key].len() > 0 {
        env[key]
    } else if file.contains_key(key) && file[key].len() > 0 {
        file[key]
    } else {
        fallback
    }
}

/// Resolves one setting.
pub fn resolve_setting(env: &KeyedList<String>, file: &KeyedList<String>, key: &str, fallback: &str) -> (r: String)
    ensures
        r@ == setting(text_map(env@), text_map(file@), key@, fallback@),
{
    if let Some(v) = env.get(key) {
        if v.unicode_len() > 0 {
            return v.clone();
        }
    }
    if let Some(v) = file.get(key) {
        if v.unicode_len() > 0 {
            return v.clone();
        }
    }
    String::from_str(fallback)
}

/// A number setting: the setting parsed as the unsigned type whose largest
/// value is `max`, or `fallback` when it does not parse.
pub open spec fn number_setting(text: Seq<char>, max: nat, fallback: nat) -> nat {
    match parse_unsigned(text, max) {
        Some(v) => v,
        None => fallback,
    }
}

/// The path of the env file: the `ENV_FILE` variable, empty when unset.
pub fn env_file_path(env: &KeyedList<String>) -> (r: String)
    ensures
        r@ == (if text_map(env@).contains_key("ENV_FILE"@) {
            text_map(env@)["ENV_FILE"@]
        } else {
            Seq::empty()
        }),
{
    match env.get("ENV_FILE") {
        Some(v) => v.clone(),
        None => String::new(),
    }
}

impl Config {
    /// Resolves every setting from the process environment and the env file.
    pub fn resolve(env: &KeyedList<String>, file: &KeyedList<String>) -> (c: Config)
        ensures
            c.host@ == setting(text_map(env@), text_map(file@), "MILVUS_HOST"@, ""@),
            c.port@ == setting(text_map(env@), text_map(file@), "MILVUS_PORT"@, "19530"@),
            c.user@ == setting(text_map(env@), text_map(file@), "MILVUS_USER"@, "root"@),
            c.password@ == setting(text_map(env@), text_map(file@), "MILVUS_PASSWORD"@, ""@),
            c.gui_port as nat == number_setting(
                setting(text_map(env@), text_map(file@), "MILVUS_GUI_PORT"@, "3003"@),
                u16::MAX as nat,
                3003,
            ),
            c.bind@ == setting(text_map(env@), text_map(file@), "MILVUS_GUI_BIND"@, "127.0.0.1"@),
            c.row_cap as nat == number_setting(
                setting(text_map(env@), text_map(file@), "MILVUS_GUI_ROW_CAP"@, "200"@),
                usize::MAX as nat,
                200,
            ),
            c.sort_cap as nat == number_setting(
                setting(text_map(env@), text_map(file@), "MILVUS_GUI_SORT_CAP"@, "500000"@),
                usize::MAX as nat,
                500000,
            ),
    {
        let host = resolve_setting(env, file, "MILVUS_HOST", "");
        let port = resolve_setting(env, file, "MILVUS_PORT", "19530");
        let user = resolve_setting(env, file, "MILVUS_USER", "root");
        let password = resolve_setting(env, file, "MILVUS_PASSWORD", "");
        let gui_port_text = resolve_setting(env, file, "MILVUS_GUI_PORT", "3003");
        let gui_port: u16 = match parse_unsigned_at_most(gui_port_text.as_str(), 65535) {
            Some(v) => v as u16,
            None => 3003,
        };
        let bind = resolve_setting(env, file, "MILVUS_GUI_BIND", "127.0.0.1");
        let row_cap_text = resolve_setting(env, file, "MILVUS_GUI_ROW_CAP", "200");
        let row_cap: usize = match parse_unsigned_at_most(row_cap_text.as_str(), usize::MAX as u64) {
            Some(v) => v as usize,
            None => 200,
        };
        let sort_cap_text = resolve_setting(env, file, "MILVUS_GUI_SORT_CAP", "500000");
        let sort_cap: usize = match parse_unsigned_at_most(sort_cap_text.as_str(), usize::MAX as u64) {
            Some(v) => v as usize,
            None => 500000,
        };
        Config { host, port, user, password, gui_port, bind, row_cap, sort_cap }
    }
}

} // verus!
