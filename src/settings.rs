//! Application settings: a fixed set of keys, each with a default and a
//! rule for its values.
use vstd::prelude::*;
use crate::builders::{env_pairs, set_env, set_var};
use crate::error::{DatabaseError, Result};
use crate::models::EnvVars;
use crate::position::invalid;
use crate::store::Database;
use crate::text::chars_of;

verus! {

/// The settings and their defaults.
pub open spec fn default_pairs() -> Seq<(Seq<char>, Seq<char>)> {
    seq![
        ("theme"@, "system"@),
        ("default_shell"@, "/bin/bash"@),
        ("log_buffer_size"@, "10000"@),
        ("max_concurrent_processes"@, "20"@),
        ("auto_scroll_logs"@, "true"@),
        ("warn_before_kill"@, "true"@),
        ("kill_process_tree_by_default"@, "false"@),
    ]
}

pub open spec fn known_key(k: Seq<char>) -> bool {
    exists|i: int| 0 <= i < default_pairs().len() && default_pairs()[i].0 == k
}

pub open spec fn numeric_key(k: Seq<char>) -> bool {
    k == "log_buffer_size"@ || k == "max_concurrent_processes"@
}

pub open spec fn flag_key(k: Seq<char>) -> bool {
    k == "auto_scroll_logs"@ || k == "warn_before_kill"@ || k == "kill_process_tree_by_default"@
}

pub open spec fn is_digit(c: char) -> bool {
    '0' <= c <= '9'
}

pub open spec fn digit_value(c: char) -> int {
    (c as u32) - ('0' as u32)
}

/// The number a run of decimal digits spells.
pub open spec fn digits_value(s: Seq<char>) -> int
    decreases s.len(),
{
    if s.len() == 0 {
        0
    } else {
        digits_value(s.drop_last()) * 10 + digit_value(s.last())
    }
}

pub open spec fn unsigned_part(s: Seq<char>) -> Seq<char> {
    if s.len() > 0 && (s[0] == '-' || s[0] == '+') {
        s.skip(1)
    } else {
        s
    }
}

/// The text is a decimal `i32`: an optional sign, one or more digits, and
/// a value in range.
pub open spec fn i32_text(s: Seq<char>) -> bool {
    let body = unsigned_part(s);
    &&& body.len() > 0
    &&& forall|i: int| 0 <= i < body.len() ==> is_digit(#[trigger] body[i])
    &&& if s.len() > 0 && s[0] == '-' {
        digits_value(body) <= 0x8000_0000
    } else {
        digits_value(body) <= 0x7fff_ffff
    }
}

/// A value the key accepts: a number for the numeric keys, `true` or
/// `false` for the flags, anything for the rest.
pub open spec fn setting_ok(k: Seq<char>, v: Seq<char>) -> bool {
    if numeric_key(k) {
        i32_text(v)
    } else if flag_key(k) {
        v == "true"@ || v == "false"@
    } else {
        true
    }
}

/// The value of the first pair with the key.
pub open spec fn value_of(s: Seq<(Seq<char>, Seq<char>)>, k: Seq<char>) -> Option<Seq<char>>
    decreases s.len(),
{
    if s.len() == 0 {
        None
    } else if s[0].0 == k {
        Some(s[0].1)
    } else {
        value_of(s.skip(1), k)
    }
}

/// The pairs after setting every default, in order.
pub open spec fn reset_pairs(s: Seq<(Seq<char>, Seq<char>)>, n: int) -> Seq<(Seq<char>, Seq<char>)>
    decreases n,
{
    if n <= 0 {
        s
    } else {
        set_var(reset_pairs(s, n - 1), default_pairs()[n - 1].0, default_pairs()[n - 1].1)
    }
}

/// The pairs after adding each default whose key is missing, in order.
pub open spec fn init_pairs(s: Seq<(Seq<char>, Seq<char>)>, n: int) -> Seq<(Seq<char>, Seq<char>)>
    decreases n,
{
    if n <= 0 {
        s
    } else {
        let prior = init_pairs(s, n - 1);
        let d = default_pairs()[n - 1];
        if value_of(prior, d.0) is None {
            prior.push(d)
        } else {
            prior
        }
    }
}

pub proof fn lemma_digits_grow(s: Seq<char>, j: int)
    requires
        0 <= j <= s.len(),
        forall|i: int| 0 <= i < s.len() ==> is_digit(#[trigger] s[i]),
    ensures
        digits_value(s.take(j)) <= digits_value(s),
        0 <= digits_value(s.take(j)),
    decreases s.len() - j,
{
    if j < s.len() {
        lemma_digits_grow(s, j + 1);
        assert(s.take(j + 1).drop_last() =~= s.take(j));
        assert(s.take(j + 1).last() == s[j]);
    } else {
        assert(s.take(j) =~= s);
        lemma_digits_nonneg(s);
    }
}

pub proof fn lemma_digits_nonneg(s: Seq<char>)
    requires
        forall|i: int| 0 <= i < s.len() ==> is_digit(#[trigger] s[i]),
    ensures
        0 <= digits_value(s),
    decreases s.len(),
{
    if s.len() > 0 {
        assert forall|i: int| 0 <= i < s.drop_last().len() implies is_digit(#[trigger] s.drop_last()[i]) by {
            assert(s.drop_last()[i] == s[i]);
        }
        lemma_digits_nonneg(s.drop_last());
        assert(is_digit(s[s.len() - 1]));
    }
}

/// True when the text reads as an `i32`.
pub fn parses_as_i32(text: &str) -> (r: bool)
    ensures
        r == i32_text(text@),
{
    let cs = chars_of(text);
    let n = cs.len();
    let negative = n > 0 && cs[0] == '-';
    let start: usize = if n > 0 && (cs[0] == '-' || cs[0] == '+') { 1 } else { 0 };
    let ghost body = unsigned_part(text@);
    assert(body =~= text@.subrange(start as int, n as int));
    if start == n {
        return false;
    }
    let bound: u64 = if negative { 0x8000_0000 } else { 0x7fff_ffff };
    let mut acc: u64 = 0;
    let mut i: usize = start;
    while i < n
        invariant
            cs@ == text@,
            n == cs@.len(),
            start <= i <= n,
            body == text@.subrange(start as int, n as int),
            body == unsigned_part(text@),
            bound == (if text@.len() > 0 && text@[0] == '-' { 0x8000_0000u64 } else { 0x7fff_ffffu64 }),
            forall|k: int| 0 <= k < i - start ==> is_digit(#[trigger] body[k]),
            acc == digits_value(body.take(i - start)),
            acc <= bound,
            bound <= 0x8000_0000,
        decreases n - i,
    {
        let c = cs[i];
        assert(body[i - start] == c);
        if !('0' <= c && c <= '9') {
            return false;
        }
        let d = (c as u32 - '0' as u32) as u64;
        assert(body.take(i - start + 1).drop_last() =~= body.take(i - start));
        assert(body.take(i - start + 1).last() == c);
        let next = acc * 10 + d;
        i = i + 1;
        if next > bound {
            proof {
                let j = (i - start) as int;
                assert(digits_value(body.take(j)) == next);
                if forall|k: int| 0 <= k < body.len() ==> is_digit(#[trigger] body[k]) {
                    lemma_digits_grow(body, j);
                }
            }
            return false;
        }
        acc = next;
    }
    assert(body.take(n - start) =~= body);
    true
}

/// The default settings.
pub fn default_settings() -> (r: EnvVars)
    ensures
        env_pairs(r@) == default_pairs(),
{
    let mut v: EnvVars = Vec::new();
    v.push((String::from_str("theme"), String::from_str("system")));
    v.push((String::from_str("default_shell"), String::from_str("/bin/bash")));
    v.push((String::from_str("log_buffer_size"), String::from_str("10000")));
    v.push((String::from_str("max_concurrent_processes"), String::from_str("20")));
    v.push((String::from_str("auto_scroll_logs"), String::from_str("true")));
    v.push((String::from_str("warn_before_kill"), String::from_str("true")));
    v.push((String::from_str("kill_process_tree_by_default"), String::from_str("false")));
    assert(env_pairs(v@) =~= default_pairs());
    v
}

fn text_eq(a: &str, b: &str) -> (r: bool)
    ensures
        r == (a@ == b@),
{
    String::from_str(a) == String::from_str(b)
}

/// Checks a key and a value against the settings' rules.
pub fn validate_setting(key: &str, value: &str) -> (r: Result<()>)
    ensures
        !known_key(key@) ==> invalid(r, "key"),
        known_key(key@) && !setting_ok(key@, value@) ==> invalid(r, "value"),
        r is Ok <==> known_key(key@) && setting_ok(key@, value@),
{
    let defaults = default_settings();
    let mut i: usize = 0;
    let mut known = false;
    while i < defaults.len()
        invariant
            env_pairs(defaults@) == default_pairs(),
            i <= defaults@.len(),
            known == exists|k: int| 0 <= k < i && default_pairs()[k].0 == key@,
        decreases defaults@.len() - i,
    {
        assert(env_pairs(defaults@)[i as int].0 == defaults@[i as int].0@);
        if text_eq(defaults[i].0.as_str(), key) {
            known = true;
        }
        i = i + 1;
    }
    if !known {
        return Err(
            DatabaseError::InvalidData {
                field: "key",
                reason: String::from_str("Unknown setting: ").concat(key),
            },
        );
    }
    if text_eq(key, "log_buffer_size") || text_eq(key, "max_concurrent_processes") {
        if parses_as_i32(value) {
            Ok(())
        } else {
            Err(DatabaseError::InvalidData { field: "value", reason: String::from_str("Must be a number") })
        }
    } else if text_eq(key, "auto_scroll_logs") || text_eq(key, "warn_before_kill") || text_eq(
        key,
        "kill_process_tree_by_default",
    ) {
        if text_eq(value, "true") || text_eq(value, "false") {
            Ok(())
        } else {
            Err(
                DatabaseError::InvalidData {
                    field: "value",
                    reason: String::from_str("Must be 'true' or 'false'"),
                },
            )
        }
    } else {
        Ok(())
    }
}

impl Database {
    /// The value of a setting.
    pub fn get_setting(&self, key: &str) -> (r: Result<String>)
        ensures
            value_of(env_pairs(self.settings@), key@) is None ==> (r matches Err(
                DatabaseError::NotFound { entity, id },
            ) && entity == "setting" && id == 0),
            r is Ok <==> value_of(env_pairs(self.settings@), key@) is Some,
            r matches Ok(v) ==> v@ == value_of(env_pairs(self.settings@), key@).unwrap(),
    {
        let ghost s = env_pairs(self.settings@);
        let mut i: usize = 0;
        assert(s.skip(0) =~= s);
        while i < self.settings.len()
            invariant
                s == env_pairs(self.settings@),
                i <= s.len(),
                value_of(s, key@) == value_of(s.skip(i as int), key@),
            decreases s.len() - i,
        {
            let pair = &self.settings[i];
            assert(s.skip(i as int)[0] == (pair.0@, pair.1@));
            if text_eq(pair.0.as_str(), key) {
                return Ok(pair.1.clone());
            }
            assert(s.skip(i as int).skip(1) =~= s.skip(i + 1));
            i = i + 1;
        }
        Err(DatabaseError::NotFound { entity: "setting", id: 0 })
    }

    /// Sets a known setting to a value its rule accepts.
    pub fn set_setting(&mut self, key: &str, value: &str) -> (r: Result<()>)
        ensures
            !known_key(key@) ==> invalid(r, "key"),
            known_key(key@) && !setting_ok(key@, value@) ==> invalid(r, "value"),
            r is Ok <==> known_key(key@) && setting_ok(key@, value@),
            r is Err ==> *final(self) == *old(self),
            r is Ok ==> *final(self) == (Database { settings: final(self).settings, ..*old(self) }),
            r is Ok ==> env_pairs(final(self).settings@) == set_var(env_pairs(old(self).settings@), key@, value@),
    {
        match validate_setting(key, value) {
            Err(e) => return Err(e),
            Ok(_) => {},
        }
        let mut current: EnvVars = Vec::new();
        core::mem::swap(&mut current, &mut self.settings);
        self.settings = set_env(Some(current), key, value);
        Ok(())
    }

    /// Adds the default of every setting that is missing; present values stay.
    pub fn initialize_settings(&mut self) -> (r: Result<()>)
        ensures
            r is Ok,
            *final(self) == (Database { settings: final(self).settings, ..*old(self) }),
            env_pairs(final(self).settings@) == init_pairs(env_pairs(old(self).settings@), 7),
    {
        let defaults = default_settings();
        let mut i: usize = 0;
        assert(defaults@.len() == 7) by {
            assert(env_pairs(defaults@).len() == default_pairs().len());
        }
        while i < defaults.len()
            invariant
                env_pairs(defaults@) == default_pairs(),
                defaults@.len() == 7,
                i <= defaults@.len(),
                *self == (Database { settings: self.settings, ..*old(self) }),
                env_pairs(self.settings@) == init_pairs(env_pairs(old(self).settings@), i as int),
            decreases defaults@.len() - i,
        {
            assert(env_pairs(defaults@)[i as int] == (defaults@[i as int].0@, defaults@[i as int].1@));
            let k = defaults[i].0.as_str();
            if self.get_setting(k).is_err() {
                let ghost before = self.settings@;
                self.settings.push((defaults[i].0.clone(), defaults[i].1.clone()));
                assert(env_pairs(self.settings@) =~= env_pairs(before).push(default_pairs()[i as int]));
            }
            i = i + 1;
        }
        Ok(())
    }

    /// Puts every setting back to its default.
    pub fn reset_settings(&mut self) -> (r: Result<()>)
        ensures
            r is Ok,
            *final(self) == (Database { settings: final(self).settings, ..*old(self) }),
            env_pairs(final(self).settings@) == reset_pairs(env_pairs(old(self).settings@), 7),
    {
        let defaults = default_settings();
        let mut i: usize = 0;
        assert(defaults@.len() == 7) by {
            assert(env_pairs(defaults@).len() == default_pairs().len());
        }
        while i < defaults.len()
            invariant
                env_pairs(defaults@) == default_pairs(),
                defaults@.len() == 7,
                i <= defaults@.len(),
                *self == (Database { settings: self.settings, ..*old(self) }),
                env_pairs(self.settings@) == reset_pairs(env_pairs(old(self).settings@), i as int),
            decreases defaults@.len() - i,
        {
            assert(env_pairs(defaults@)[i as int] == (defaults@[i as int].0@, defaults@[i as int].1@));
            let mut current: EnvVars = Vec::new();
            core::mem::swap(&mut current, &mut self.settings);
            self.settings = set_env(Some(current), defaults[i].0.as_str(), defaults[i].1.as_str());
            i = i + 1;
        }
        Ok(())
    }

    /// Every setting as (key, value) pairs.
    pub fn get_all_settings(&self) -> (r: Result<Vec<(String, String)>>)
        ensures
            r matches Ok(v) && env_pairs(v@) == env_pairs(self.settings@),
    {
        let mut out: Vec<(String, String)> = Vec::new();
        let mut i: usize = 0;
        assert(env_pairs(out@) =~= env_pairs(self.settings@).subrange(0, 0));
        while i < self.settings.len()
            invariant
                i <= self.settings@.len(),
                out@.len() == i,
                env_pairs(out@) == env_pairs(self.settings@).subrange(0, i as int),
            decreases self.settings@.len() - i,
        {
            let pair = &self.settings[i];
            let k = pair.0.clone();
            let v = pair.1.clone();
            let ghost before = out@;
            out.push((k, v));
            proof {
                assert(out@ == before.push((k, v)));
                assert forall|j: int| 0 <= j < out@.len() implies env_pairs(out@)[j] == env_pairs(self.settings@).subrange(0, i + 1)[j] by {
                    if j < before.len() {
                        assert(out@[j] == before[j]);
                        assert(env_pairs(before)[j] == env_pairs(self.settings@).subrange(0, i as int)[j]);
                    } else {
                        assert(out@[j] == (k, v));
                    }
                }
            }
            i = i + 1;
            assert(env_pairs(out@) =~= env_pairs(self.settings@).subrange(0, i as int));
        }
        assert(env_pairs(out@) =~= env_pairs(self.settings@));
        Ok(out)
    }
}

} // verus!
