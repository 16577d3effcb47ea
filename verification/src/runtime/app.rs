//! The runtime's `--app` definitions.
//!
//! Format: `name=NAME,path=WASM[,entrypoint=FN][,module-id=ID][,dependencies=A,B][,tenant=T][,readiness=COND]`.
//! A comma-separated segment that contains `=` starts a new key; a segment
//! without one continues the previous key's value (so `dependencies=a,b`
//! works). Keys and values are trimmed of whitespace. `name` and `path` are
//! required; `entrypoint` defaults to `main`, `module-id` to the name and
//! `readiness` to `immediate`.
use vstd::prelude::*;

use crate::text::{push_str, string_from_chars};

verus! {

/// One system guest to run, as given on the command line.
#[derive(Debug, Clone, PartialEq, Eq)]
pub struct AppDef {
    /// The guest's name.
    pub name: String,
    /// The path of its WebAssembly module.
    pub path: String,
    /// The exported function to run.
    pub entrypoint: String,
    /// The module identifier.
    pub module_id: String,
    /// The guests this one depends on.
    pub dependencies: Vec<String>,
    /// The tenant it runs under, if any.
    pub tenant: Option<String>,
    /// When it counts as ready: `immediate`, or a line its activity log
    /// must contain.
    pub readiness: String,
}

/// Whether `c` has the Unicode `White_Space` property.
pub open spec fn is_space(c: char) -> bool {
    ||| '\u{9}' <= c <= '\u{d}'
    ||| c == ' '
    ||| c == '\u{85}'
    ||| c == '\u{a0}'
    ||| c == '\u{1680}'
    ||| '\u{2000}' <= c <= '\u{200a}'
    ||| c == '\u{2028}'
    ||| c == '\u{2029}'
    ||| c == '\u{202f}'
    ||| c == '\u{205f}'
    ||| c == '\u{3000}'
}

/// `char::is_whitespace`: the Unicode `White_Space` property.
pub fn is_whitespace(c: char) -> (r: bool)
    ensures
        r == is_space(c),
{
    ('\u{9}' <= c && c <= '\u{d}') || c == ' ' || c == '\u{85}' || c == '\u{a0}' || c == '\u{1680}'
        || ('\u{2000}' <= c && c <= '\u{200a}') || c == '\u{2028}' || c == '\u{2029}' || c
        == '\u{202f}' || c == '\u{205f}' || c == '\u{3000}'
}

/// `s` without leading whitespace.
pub open spec fn trim_start(s: Seq<char>) -> Seq<char>
    decreases s.len(),
{
    if s.len() > 0 && is_space(s[0]) {
        trim_start(s.drop_first())
    } else {
        s
    }
}

/// `s` without trailing whitespace.
pub open spec fn trim_end(s: Seq<char>) -> Seq<char>
    decreases s.len(),
{
    if s.len() > 0 && is_space(s.last()) {
        trim_end(s.drop_last())
    } else {
        s
    }
}

/// `str::trim`: `s` without leading or trailing whitespace.
pub open spec fn trim(s: Seq<char>) -> Seq<char> {
    trim_end(trim_start(s))
}

/// `str::split(',')`: the pieces between commas (one more than there are
/// commas).
pub open spec fn split_commas(s: Seq<char>) -> Seq<Seq<char>>
    decreases s.len(),
{
    if s.len() == 0 {
        seq![Seq::empty()]
    } else {
        let rest = split_commas(s.drop_first());
        if s[0] == ',' {
            seq![Seq::empty()] + rest
        } else {
            rest.update(0, seq![s[0]] + rest[0])
        }
    }
}

/// `str::find('=')`: the position of the first `=`.
pub open spec fn eq_pos(s: Seq<char>) -> Option<int>
    decreases s.len(),
{
    if s.len() == 0 {
        None
    } else if s[0] == '=' {
        Some(0)
    } else {
        match eq_pos(s.drop_first()) {
            Some(i) => Some(i + 1),
            None => None,
        }
    }
}

/// `text` between single quotes.
pub open spec fn quoted(text: Seq<char>) -> Seq<char> {
    "'"@ + text + "'"@
}

/// The key/value pairs of the segments, or the error of the first segment
/// that is neither a pair nor a continuation.
pub open spec fn collect_pairs(raw: Seq<char>, segs: Seq<Seq<char>>) -> Result<
    Seq<(Seq<char>, Seq<char>)>,
    Seq<char>,
>
    decreases segs.len(),
{
    if segs.len() == 0 {
        Ok(Seq::empty())
    } else {
        match collect_pairs(raw, segs.drop_last()) {
            Err(e) => Err(e),
            Ok(kvs) => {
                let part = segs.last();
                match eq_pos(part) {
                    Some(i) => {
                        let key = trim(part.take(i));
                        if key.len() == 0 {
                            Err("empty key in "@ + quoted(raw))
                        } else {
                            Ok(kvs.push((key, trim(part.skip(i + 1)))))
                        }
                    },
                    None => if kvs.len() > 0 {
                        Ok(kvs.update(kvs.len() - 1, (kvs.last().0, kvs.last().1 + seq![','] + part)))
                    } else {
                        Err("expected key=value pair, got "@ + quoted(part) + " in "@ + quoted(raw))
                    },
                }
            },
        }
    }
}

/// The settings gathered from the pairs so far.
pub struct AppFields {
    /// The name, once given.
    pub name: Option<Seq<char>>,
    /// The path, once given.
    pub path: Option<Seq<char>>,
    /// The entrypoint.
    pub entrypoint: Seq<char>,
    /// The module identifier, once given.
    pub module_id: Option<Seq<char>>,
    /// The dependencies.
    pub dependencies: Seq<Seq<char>>,
    /// The tenant.
    pub tenant: Option<Seq<char>>,
    /// The readiness condition.
    pub readiness: Seq<char>,
}

/// The settings before any pair.
pub open spec fn default_fields() -> AppFields {
    AppFields {
        name: None,
        path: None,
        entrypoint: "main"@,
        module_id: None,
        dependencies: Seq::empty(),
        tenant: None,
        readiness: "immediate"@,
    }
}

/// The settings after one more pair, or its error.
pub open spec fn apply_pair(f: AppFields, key: Seq<char>, val: Seq<char>) -> Result<AppFields, Seq<char>> {
    if key == "name"@ {
        if val.len() == 0 {
            Err("name must not be empty"@)
        } else {
            Ok(AppFields { name: Some(val), ..f })
        }
    } else if key == "path"@ {
        if val.len() == 0 {
            Err("path must not be empty"@)
        } else {
            Ok(AppFields { path: Some(val), ..f })
        }
    } else if key == "entrypoint"@ {
        Ok(AppFields { entrypoint: val, ..f })
    } else if key == "module-id"@ {
        Ok(AppFields { module_id: Some(val), ..f })
    } else if key == "dependencies"@ {
        Ok(AppFields { dependencies: split_commas(val).map_values(|d: Seq<char>| trim(d)), ..f })
    } else if key == "tenant"@ {
        Ok(AppFields { tenant: if val.len() == 0 { None } else { Some(val) }, ..f })
    } else if key == "readiness"@ {
        Ok(AppFields { readiness: val, ..f })
    } else {
        Err("unknown key "@ + quoted(key))
    }
}

/// The settings after all the pairs, or the error of the first bad one.
pub open spec fn apply_pairs(kvs: Seq<(Seq<char>, Seq<char>)>) -> Result<AppFields, Seq<char>>
    decreases kvs.len(),
{
    if kvs.len() == 0 {
        Ok(default_fields())
    } else {
        match apply_pairs(kvs.drop_last()) {
            Err(e) => Err(e),
            Ok(f) => apply_pair(f, kvs.last().0, kvs.last().1),
        }
    }
}

/// What `raw` defines: the settings, or the error message.
pub open spec fn app_spec(raw: Seq<char>) -> Result<AppFields, Seq<char>> {
    match collect_pairs(raw, split_commas(raw)) {
        Err(e) => Err(e),
        Ok(kvs) => match apply_pairs(kvs) {
            Err(e) => Err(e),
            Ok(f) => if f.name is None {
                Err("missing required key 'name' in "@ + quoted(raw))
            } else if f.path is None {
                Err("missing required key 'path' in "@ + quoted(raw))
            } else {
                Ok(
                    AppFields {
                        module_id: Some(
                            match f.module_id {
                                Some(m) => m,
                                None => f.name->0,
                            },
                        ),
                        ..f
                    },
                )
            },
        },
    }
}

/// The definition matches the settings.
pub open spec fn app_matches(def: AppDef, f: AppFields) -> bool {
    &&& f.name == Some(def.name@)
    &&& f.path == Some(def.path@)
    &&& def.entrypoint@ == f.entrypoint
    &&& f.module_id == Some(def.module_id@)
    &&& def.dependencies@.map_values(|d: String| d@) == f.dependencies
    &&& match def.tenant {
        Some(t) => f.tenant == Some(t@),
        None => f.tenant is None,
    }
    &&& def.readiness@ == f.readiness
}

// ---------------------------------------------------------------------
// Lemmas.
// ---------------------------------------------------------------------
proof fn lemma_trim_start(s: Seq<char>, a: int)
    requires
        0 <= a <= s.len(),
        forall|j: int| 0 <= j < a ==> is_space(s[j]),
        a == s.len() || !is_space(s[a]),
    ensures
        trim_start(s) == s.skip(a),
    decreases a,
{
    if a == 0 {
        assert(s.skip(0) =~= s);
    } else {
        lemma_trim_start(s.drop_first(), a - 1);
        assert(s.drop_first().skip(a - 1) =~= s.skip(a));
    }
}

proof fn lemma_trim_end(s: Seq<char>, b: int)
    requires
        0 <= b <= s.len(),
        forall|j: int| b <= j < s.len() ==> is_space(s[j]),
        b == 0 || !is_space(s[b - 1]),
    ensures
        trim_end(s) == s.take(b),
    decreases s.len() - b,
{
    if b == s.len() {
        assert(s.take(b) =~= s);
    } else {
        lemma_trim_end(s.drop_last(), b);
        assert(s.drop_last().take(b) =~= s.take(b));
    }
}

proof fn lemma_split_push(s: Seq<char>, c: char)
    ensures
        split_commas(s.push(c)) == if c == ',' {
            split_commas(s).push(Seq::empty())
        } else {
            let parts = split_commas(s);
            parts.update(parts.len() - 1, parts.last().push(c))
        },
        split_commas(s).len() >= 1,
    decreases s.len(),
{
    let t = s.push(c);
    if s.len() == 0 {
        assert(t.drop_first() =~= Seq::<char>::empty());
        let e = Seq::<char>::empty();
        assert(split_commas(e) =~= seq![e]);
        if c == ',' {
            assert(split_commas(t) =~~= seq![e, e]);
        } else {
            assert(split_commas(t) =~~= seq![seq![c]]);
            assert(seq![e].update(0, e.push(c)) =~~= seq![seq![c]]);
        }
    } else {
        lemma_split_push(s.drop_first(), c);
        assert(t.drop_first() =~= s.drop_first().push(c));
        assert(t[0] == s[0]);
        let rest = split_commas(s.drop_first());
        let rest_t = split_commas(s.drop_first().push(c));
        let e = Seq::<char>::empty();
        if s[0] == ',' {
            assert(split_commas(s) == seq![e] + rest);
            assert(split_commas(t) == seq![e] + rest_t);
            if c == ',' {
                assert(seq![e] + rest.push(e) =~~= (seq![e] + rest).push(e));
            } else {
                let r2 = rest.update(rest.len() - 1, rest.last().push(c));
                assert(rest_t == r2);
                assert(seq![e] + r2 =~~= (seq![e] + rest).update(
                    rest.len() as int,
                    (seq![e] + rest).last().push(c),
                ));
            }
        } else {
            assert(split_commas(s) == rest.update(0, seq![s[0]] + rest[0]));
            assert(split_commas(t) == rest_t.update(0, seq![s[0]] + rest_t[0]));
            if c == ',' {
                let r2 = rest.push(e);
                assert(rest_t == r2);
                assert(r2.update(0, seq![s[0]] + r2[0]) =~~= rest.update(0, seq![s[0]] + rest[0]).push(e));
            } else {
                let r2 = rest.update(rest.len() - 1, rest.last().push(c));
                assert(rest_t == r2);
                let u = rest.update(0, seq![s[0]] + rest[0]);
                if rest.len() == 1 {
                    assert(seq![s[0]] + rest[0].push(c) =~= (seq![s[0]] + rest[0]).push(c));
                }
                assert(r2.update(0, seq![s[0]] + r2[0]) =~~= u.update(u.len() - 1, u.last().push(c)));
            }
        }
    }
}

proof fn lemma_eq_pos(s: Seq<char>, i: int)
    requires
        0 <= i <= s.len(),
        forall|j: int| 0 <= j < i ==> s[j] != '=',
        i == s.len() || s[i] == '=',
    ensures
        eq_pos(s) == if i == s.len() {
            None::<int>
        } else {
            Some(i)
        },
    decreases i,
{
    if i > 0 {
        lemma_eq_pos(s.drop_first(), i - 1);
    }
}

// ---------------------------------------------------------------------
// Parsing.
// ---------------------------------------------------------------------
/// The characters of a string.
fn chars_of(s: &str) -> (r: Vec<char>)
    ensures
        r@ == s@,
{
    let mut out: Vec<char> = Vec::new();
    push_str(&mut out, s);
    assert(out@ =~= s@);
    out
}

/// The characters of `s` from `from` to `to`.
fn slice_chars(s: &Vec<char>, from: usize, to: usize) -> (r: Vec<char>)
    requires
        from <= to <= s@.len(),
    ensures
        r@ == s@.subrange(from as int, to as int),
{
    let mut out: Vec<char> = Vec::new();
    let mut i: usize = from;
    while i < to
        invariant
            from <= i <= to,
            to <= s@.len(),
            out@ == s@.subrange(from as int, i as int),
        decreases to - i,
    {
        out.push(s[i]);
        assert(out@ =~= s@.subrange(from as int, i + 1));
        i = i + 1;
    }
    out
}

/// `str::trim` on characters.
fn trim_chars(s: &Vec<char>) -> (r: Vec<char>)
    ensures
        r@ == trim(s@),
{
    let mut a: usize = 0;
    while a < s.len() && is_whitespace(s[a])
        invariant
            a <= s@.len(),
            forall|j: int| 0 <= j < a ==> is_space(s@[j]),
        decreases s@.len() - a,
    {
        a = a + 1;
    }
    let mut b: usize = s.len();
    while b > a && is_whitespace(s[b - 1])
        invariant
            a <= b <= s@.len(),
            forall|j: int| b <= j < s@.len() ==> is_space(s@[j]),
        decreases b,
    {
        b = b - 1;
    }
    proof {
        lemma_trim_start(s@, a as int);
        let t = s@.skip(a as int);
        assert forall|j: int| b - a <= j < t.len() implies is_space(t[j]) by {
            assert(t[j] == s@[j + a]);
        }
        if b > a {
            assert(t[b - a - 1] == s@[b - 1]);
        }
        lemma_trim_end(t, b - a);
        assert(t.take(b - a) =~= s@.subrange(a as int, b as int));
    }
    slice_chars(s, a, b)
}

/// Whether two character lists are equal.
fn chars_eq(a: &Vec<char>, b: &Vec<char>) -> (r: bool)
    ensures
        r == (a@ == b@),
{
    if a.len() != b.len() {
        return false;
    }
    let mut i: usize = 0;
    while i < a.len()
        invariant
            i <= a@.len(),
            a@.len() == b@.len(),
            forall|j: int| 0 <= j < i ==> a@[j] == b@[j],
        decreases a@.len() - i,
    {
        if a[i] != b[i] {
            return false;
        }
        i = i + 1;
    }
    assert(a@ =~= b@);
    true
}

/// Whether the characters spell the literal.
fn is_word(a: &Vec<char>, word: &str) -> (r: bool)
    ensures
        r == (a@ == word@),
{
    chars_eq(a, &chars_of(word))
}

/// `str::split(',')` on characters.
fn split_at_commas(s: &Vec<char>) -> (r: Vec<Vec<char>>)
    ensures
        r@.map_values(|v: Vec<char>| v@) == split_commas(s@),
{
    let mut parts: Vec<Vec<char>> = Vec::new();
    parts.push(Vec::new());
    assert(parts@.map_values(|v: Vec<char>| v@) =~= split_commas(s@.take(0)));
    let mut i: usize = 0;
    while i < s.len()
        invariant
            i <= s@.len(),
            parts@.len() >= 1,
            parts@.map_values(|v: Vec<char>| v@) == split_commas(s@.take(i as int)),
        decreases s@.len() - i,
    {
        let c = s[i];
        let ghost before = parts@.map_values(|v: Vec<char>| v@);
        proof {
            assert(s@.take(i + 1) =~= s@.take(i as int).push(c));
            lemma_split_push(s@.take(i as int), c);
        }
        if c == ',' {
            parts.push(Vec::new());
            assert(parts@.map_values(|v: Vec<char>| v@) =~= before.push(Seq::empty()));
        } else {
            let last = parts.len() - 1;
            let mut piece = parts.remove(last);
            piece.push(c);
            parts.push(piece);
            assert(parts@.map_values(|v: Vec<char>| v@) =~= before.update(
                before.len() - 1,
                before.last().push(c),
            ));
        }
        i = i + 1;
    }
    assert(s@.take(s@.len() as int) =~= s@);
    parts
}

/// `str::find('=')` on characters.
fn find_eq(s: &Vec<char>) -> (r: Option<usize>)
    ensures
        match r {
            Some(i) => eq_pos(s@) == Some(i as int) && i < s@.len(),
            None => eq_pos(s@) is None,
        },
{
    let mut i: usize = 0;
    while i < s.len() && s[i] != '='
        invariant
            i <= s@.len(),
            forall|j: int| 0 <= j < i ==> s@[j] != '=',
        decreases s@.len() - i,
    {
        i = i + 1;
    }
    proof {
        lemma_eq_pos(s@, i as int);
    }
    if i < s.len() {
        Some(i)
    } else {
        None
    }
}

/// Appends `text` between single quotes.
fn push_quoted(out: &mut Vec<char>, text: &Vec<char>)
    ensures
        final(out)@ == old(out)@ + quoted(text@),
{
    let ghost start = out@;
    push_str(out, "'");
    let mut k: usize = 0;
    let ghost mid = out@;
    while k < text.len()
        invariant
            k <= text@.len(),
            out@ == mid + text@.take(k as int),
        decreases text@.len() - k,
    {
        out.push(text[k]);
        assert(text@.take(k + 1) =~= text@.take(k as int).push(text@[k as int]));
        k = k + 1;
    }
    push_str(out, "'");
    assert(text@.take(text@.len() as int) =~= text@);
    assert(out@ =~= start + quoted(text@));
}

/// A message made of a prefix and quoted text.
fn quote_message(prefix: &str, text: &Vec<char>) -> (r: Vec<char>)
    ensures
        r@ == prefix@ + quoted(text@),
{
    let mut out = chars_of(prefix);
    push_quoted(&mut out, text);
    out
}

/// Once a prefix of the segments fails, the whole list fails the same way.
proof fn lemma_collect_err_extends(raw: Seq<char>, segs: Seq<Seq<char>>, n: int, m: int)
    requires
        0 <= n <= m <= segs.len(),
        collect_pairs(raw, segs.take(n)) is Err,
    ensures
        collect_pairs(raw, segs.take(m)) == collect_pairs(raw, segs.take(n)),
    decreases m - n,
{
    if m > n {
        lemma_collect_err_extends(raw, segs, n, m - 1);
        assert(segs.take(m).drop_last() =~= segs.take(m - 1));
    }
}

/// Once a prefix of the pairs fails, all of them fail the same way.
proof fn lemma_apply_err_extends(kvs: Seq<(Seq<char>, Seq<char>)>, n: int, m: int)
    requires
        0 <= n <= m <= kvs.len(),
        apply_pairs(kvs.take(n)) is Err,
    ensures
        apply_pairs(kvs.take(m)) == apply_pairs(kvs.take(n)),
    decreases m - n,
{
    if m > n {
        lemma_apply_err_extends(kvs, n, m - 1);
        assert(kvs.take(m).drop_last() =~= kvs.take(m - 1));
    }
}

/// The views of character lists.
pub open spec fn texts(v: Seq<Vec<char>>) -> Seq<Seq<char>> {
    v.map_values(|c: Vec<char>| c@)
}

/// The views of key/value pairs.
pub open spec fn pair_texts(v: Seq<(Vec<char>, Vec<char>)>) -> Seq<(Seq<char>, Seq<char>)> {
    v.map_values(|p: (Vec<char>, Vec<char>)| (p.0@, p.1@))
}

/// The key/value pairs of the segments of `raw`.
fn collect_key_values(raw: &Vec<char>, segs: &Vec<Vec<char>>) -> (r: Result<Vec<(Vec<char>, Vec<char>)>, Vec<char>>)
    ensures
        match r {
            Ok(kvs) => collect_pairs(raw@, texts(segs@)) == Ok::<Seq<(Seq<char>, Seq<char>)>, Seq<char>>(pair_texts(kvs@)),
            Err(e) => collect_pairs(raw@, texts(segs@)) == Err::<Seq<(Seq<char>, Seq<char>)>, Seq<char>>(e@),
        },
{
    let ghost sv = texts(segs@);
    let mut kvs: Vec<(Vec<char>, Vec<char>)> = Vec::new();
    let mut i: usize = 0;
    assert(sv.take(0) =~= Seq::<Seq<char>>::empty());
    assert(pair_texts(kvs@) =~= Seq::<(Seq<char>, Seq<char>)>::empty());
    while i < segs.len()
        invariant
            i <= segs@.len(),
            sv == texts(segs@),
            collect_pairs(raw@, sv.take(i as int)) == Ok::<Seq<(Seq<char>, Seq<char>)>, Seq<char>>(pair_texts(kvs@)),
        decreases segs@.len() - i,
    {
        let part = &segs[i];
        proof {
            assert(sv.take(i + 1).drop_last() =~= sv.take(i as int));
            assert(sv.take(i + 1).last() == part@);
        }
        let ghost before = pair_texts(kvs@);
        match find_eq(part) {
            Some(e) => {
                let n = part.len();
                let key = trim_chars(&slice_chars(part, 0, e));
                let val = trim_chars(&slice_chars(part, e + 1, n));
                proof {
                    assert(part@.subrange(0, e as int) =~= part@.take(e as int));
                    assert(part@.subrange(e + 1, part@.len() as int) =~= part@.skip(e + 1));
                }
                if key.len() == 0 {
                    let msg = quote_message("empty key in ", raw);
                    proof {
                        lemma_collect_err_extends(raw@, sv, i + 1, sv.len() as int);
                        assert(sv.take(sv.len() as int) =~= sv);
                    }
                    return Err(msg);
                }
                kvs.push((key, val));
                assert(pair_texts(kvs@) =~= before.push((key@, val@)));
            },
            None => {
                if kvs.len() == 0 {
                    let mut msg = quote_message("expected key=value pair, got ", part);
                    push_str(&mut msg, " in ");
                    push_quoted(&mut msg, raw);
                    proof {
                        lemma_collect_err_extends(raw@, sv, i + 1, sv.len() as int);
                        assert(sv.take(sv.len() as int) =~= sv);
                        assert(msg@ =~= "expected key=value pair, got "@ + quoted(part@) + " in "@
                            + quoted(raw@));
                    }
                    return Err(msg);
                }
                let last = kvs.len() - 1;
                let ghost old_kvs = kvs@;
                let (k, mut v) = kvs.remove(last);
                proof {
                    assert(before.last() == (old_kvs[last as int].0@, old_kvs[last as int].1@));
                    assert(k@ == before.last().0);
                    assert(v@ == before.last().1);
                    assert(pair_texts(kvs@) =~= before.drop_last());
                }
                v.push(',');
                let mut j: usize = 0;
                let ghost start = v@;
                while j < part.len()
                    invariant
                        j <= part@.len(),
                        v@ == start + part@.take(j as int),
                    decreases part@.len() - j,
                {
                    v.push(part[j]);
                    assert(part@.take(j + 1) =~= part@.take(j as int).push(part@[j as int]));
                    j = j + 1;
                }
                assert(part@.take(part@.len() as int) =~= part@);
                let ghost kv_mid = pair_texts(kvs@);
                assert(v@ =~= before.last().1 + seq![','] + part@);
                kvs.push((k, v));
                assert(pair_texts(kvs@) =~= kv_mid.push((k@, v@)));
                assert(pair_texts(kvs@) =~= before.update(
                    before.len() - 1,
                    (before.last().0, before.last().1 + seq![','] + part@),
                ));
            },
        }
        i = i + 1;
    }
    assert(sv.take(segs@.len() as int) =~= sv);
    Ok(kvs)
}

/// The dependencies named by a value: its comma-separated pieces, trimmed.
fn dependency_list(val: &Vec<char>) -> (r: Vec<Vec<char>>)
    ensures
        texts(r@) == split_commas(val@).map_values(|d: Seq<char>| trim(d)),
{
    let parts = split_at_commas(val);
    let mut out: Vec<Vec<char>> = Vec::new();
    let mut i: usize = 0;
    while i < parts.len()
        invariant
            i <= parts@.len(),
            texts(parts@) == split_commas(val@),
            out@.len() == i,
            forall|k: int| 0 <= k < i ==> (#[trigger] out@[k])@ == trim(parts@[k]@),
        decreases parts@.len() - i,
    {
        out.push(trim_chars(&parts[i]));
        i = i + 1;
    }
    assert forall|k: int| 0 <= k < out@.len() implies texts(out@)[k] == split_commas(val@).map_values(
        |d: Seq<char>| trim(d),
    )[k] by {
        assert(texts(parts@)[k] == parts@[k]@);
    }
    assert(texts(out@) =~= split_commas(val@).map_values(|d: Seq<char>| trim(d)));
    out
}

/// The settings as exec values.
struct Fields {
    name: Option<Vec<char>>,
    path: Option<Vec<char>>,
    entrypoint: Vec<char>,
    module_id: Option<Vec<char>>,
    dependencies: Vec<Vec<char>>,
    tenant: Option<Vec<char>>,
    readiness: Vec<char>,
}

spec fn opt_text(o: Option<Vec<char>>) -> Option<Seq<char>> {
    match o {
        Some(v) => Some(v@),
        None => None,
    }
}

spec fn fields_view(f: Fields) -> AppFields {
    AppFields {
        name: opt_text(f.name),
        path: opt_text(f.path),
        entrypoint: f.entrypoint@,
        module_id: opt_text(f.module_id),
        dependencies: texts(f.dependencies@),
        tenant: opt_text(f.tenant),
        readiness: f.readiness@,
    }
}

/// The settings of the pairs.
fn apply_key_values(kvs: Vec<(Vec<char>, Vec<char>)>) -> (r: Result<Fields, Vec<char>>)
    ensures
        match r {
            Ok(f) => apply_pairs(pair_texts(kvs@)) == Ok::<AppFields, Seq<char>>(fields_view(f)),
            Err(e) => apply_pairs(pair_texts(kvs@)) == Err::<AppFields, Seq<char>>(e@),
        },
{
    let ghost pv = pair_texts(kvs@);
    let mut f = Fields {
        name: None,
        path: None,
        entrypoint: chars_of("main"),
        module_id: None,
        dependencies: Vec::new(),
        tenant: None,
        readiness: chars_of("immediate"),
    };
    assert(texts(f.dependencies@) =~= Seq::<Seq<char>>::empty());
    assert(pv.take(0) =~= Seq::<(Seq<char>, Seq<char>)>::empty());
    let mut i: usize = 0;
    while i < kvs.len()
        invariant
            i <= kvs@.len(),
            pv == pair_texts(kvs@),
            apply_pairs(pv.take(i as int)) == Ok::<AppFields, Seq<char>>(fields_view(f)),
        decreases kvs@.len() - i,
    {
        let key = &kvs[i].0;
        let val = &kvs[i].1;
        proof {
            assert(pv.take(i + 1).drop_last() =~= pv.take(i as int));
            assert(pv.take(i + 1).last() == (key@, val@));
        }
        if is_word(key, "name") {
            if val.len() == 0 {
                proof {
                    lemma_apply_err_extends(pv, i + 1, pv.len() as int);
                    assert(pv.take(pv.len() as int) =~= pv);
                }
                return Err(chars_of("name must not be empty"));
            }
            f.name = Some(slice_chars(val, 0, val.len()));
            assert(val@.subrange(0, val@.len() as int) =~= val@);
        } else if is_word(key, "path") {
            if val.len() == 0 {
                proof {
                    lemma_apply_err_extends(pv, i + 1, pv.len() as int);
                    assert(pv.take(pv.len() as int) =~= pv);
                }
                return Err(chars_of("path must not be empty"));
            }
            f.path = Some(slice_chars(val, 0, val.len()));
            assert(val@.subrange(0, val@.len() as int) =~= val@);
        } else if is_word(key, "entrypoint") {
            f.entrypoint = slice_chars(val, 0, val.len());
            assert(val@.subrange(0, val@.len() as int) =~= val@);
        } else if is_word(key, "module-id") {
            f.module_id = Some(slice_chars(val, 0, val.len()));
            assert(val@.subrange(0, val@.len() as int) =~= val@);
        } else if is_word(key, "dependencies") {
            f.dependencies = dependency_list(val);
        } else if is_word(key, "tenant") {
            if val.len() == 0 {
                f.tenant = None;
            } else {
                f.tenant = Some(slice_chars(val, 0, val.len()));
                assert(val@.subrange(0, val@.len() as int) =~= val@);
            }
        } else if is_word(key, "readiness") {
            f.readiness = slice_chars(val, 0, val.len());
            assert(val@.subrange(0, val@.len() as int) =~= val@);
        } else {
            let msg = quote_message("unknown key ", key);
            proof {
                lemma_apply_err_extends(pv, i + 1, pv.len() as int);
                assert(pv.take(pv.len() as int) =~= pv);
            }
            return Err(msg);
        }
        i = i + 1;
    }
    assert(pv.take(kvs@.len() as int) =~= pv);
    Ok(f)
}

/// Parse one `--app` definition.
pub fn parse_app(raw: &str) -> (r: Result<AppDef, String>)
    ensures
        match r {
            Ok(def) => app_spec(raw@) matches Ok(f) && app_matches(def, f),
            Err(e) => app_spec(raw@) == Err::<AppFields, Seq<char>>(e@),
        },
{
    let chars = chars_of(raw);
    let segs = split_at_commas(&chars);
    let kvs = match collect_key_values(&chars, &segs) {
        Ok(kvs) => kvs,
        Err(e) => {
            return Err(string_from_chars(&e));
        },
    };
    let f = match apply_key_values(kvs) {
        Ok(f) => f,
        Err(e) => {
            return Err(string_from_chars(&e));
        },
    };
    let name = match f.name {
        Some(n) => n,
        None => {
            let msg = quote_message("missing required key 'name' in ", &chars);
            return Err(string_from_chars(&msg));
        },
    };
    let path = match f.path {
        Some(p) => p,
        None => {
            let msg = quote_message("missing required key 'path' in ", &chars);
            return Err(string_from_chars(&msg));
        },
    };
    let module_id = match f.module_id {
        Some(m) => string_from_chars(&m),
        None => string_from_chars(&name),
    };
    let mut dependencies: Vec<String> = Vec::new();
    let mut i: usize = 0;
    while i < f.dependencies.len()
        invariant
            i <= f.dependencies@.len(),
            dependencies@.len() == i,
            forall|k: int| 0 <= k < i ==> (#[trigger] dependencies@[k])@ == f.dependencies@[k]@,
        decreases f.dependencies@.len() - i,
    {
        dependencies.push(string_from_chars(&f.dependencies[i]));
        i = i + 1;
    }
    assert(dependencies@.map_values(|d: String| d@) =~= texts(f.dependencies@));
    let tenant = match &f.tenant {
        Some(t) => Some(string_from_chars(t)),
        None => None,
    };
    Ok(AppDef {
        name: string_from_chars(&name),
        path: string_from_chars(&path),
        entrypoint: string_from_chars(&f.entrypoint),
        module_id,
        dependencies,
        tenant,
        readiness: string_from_chars(&f.readiness),
    })
}

} // verus!
