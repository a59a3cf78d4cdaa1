//! Session metadata: key-value pairs, tags and labels attached to a
//! profiling session (git commit, CI run, configuration variant, ...).

use vstd::prelude::*;
use vstd::string::{StringExecFns, StrSliceExecFns};
use crate::text::{decimal, u64_to_decimal};

verus! {

/// Metadata attached to one session.
pub struct SessionMeta {
    /// String key-value pairs, each key at most once.
    pub kv: Vec<(String, String)>,
    /// Labels without values, each at most once.
    pub tags: Vec<String>,
    /// Optional human-readable name for this session.
    pub session_name: Option<String>,
    /// Description of what this session is profiling.
    pub description: Option<String>,
    /// Optional environment label ("ci", "dev", "staging", "prod").
    pub environment: Option<String>,
}

/// The key-value pairs as character sequences, in insertion order.
pub open spec fn pairs_of(kv: Seq<(String, String)>) -> Seq<(Seq<char>, Seq<char>)> {
    kv.map_values(|p: (String, String)| (p.0@, p.1@))
}

/// The keys of `pairs`, in order.
pub open spec fn keys_of(pairs: Seq<(Seq<char>, Seq<char>)>) -> Seq<Seq<char>> {
    pairs.map_values(|p: (Seq<char>, Seq<char>)| p.0)
}

/// The value stored under `key`, if any.
pub open spec fn lookup(pairs: Seq<(Seq<char>, Seq<char>)>, key: Seq<char>) -> Option<Seq<char>> {
    if keys_of(pairs).contains(key) {
        Some(pairs[keys_of(pairs).index_of(key)].1)
    } else {
        None
    }
}

/// `pairs` with `key` mapped to `value`: the old value is replaced in place,
/// or the pair is added at the end.
pub open spec fn stored(pairs: Seq<(Seq<char>, Seq<char>)>, key: Seq<char>, value: Seq<char>) -> Seq<
    (Seq<char>, Seq<char>),
> {
    if keys_of(pairs).contains(key) {
        pairs.update(keys_of(pairs).index_of(key), (key, value))
    } else {
        pairs.push((key, value))
    }
}

/// The tags as character sequences.
pub open spec fn tags_of(tags: Seq<String>) -> Seq<Seq<char>> {
    tags.map_values(|t: String| t@)
}

/// An optional string as an optional character sequence.
pub open spec fn opt_view(o: Option<String>) -> Option<Seq<char>> {
    match o {
        Some(s) => Some(s@),
        None => None,
    }
}

impl SessionMeta {
    /// No key and no tag occurs twice.
    pub open spec fn wf(&self) -> bool {
        &&& keys_of(pairs_of(self.kv@)).no_duplicates()
        &&& tags_of(self.tags@).no_duplicates()
    }

    /// Empty metadata.
    pub fn new() -> (m: Self)
        ensures
            m.wf(),
            m.kv@.len() == 0,
            m.tags@.len() == 0,
            m.session_name is None,
            m.description is None,
            m.environment is None,
    {
        let m = SessionMeta {
            kv: Vec::new(),
            tags: Vec::new(),
            session_name: None,
            description: None,
            environment: None,
        };
        assert(keys_of(pairs_of(m.kv@)) =~= Seq::<Seq<char>>::empty());
        assert(tags_of(m.tags@) =~= Seq::<Seq<char>>::empty());
        m
    }
}

fn copy_string_opt(o: &Option<String>) -> (r: Option<String>)
    ensures
        r == *o,
{
    match o {
        Some(s) => Some(s.clone()),
        None => None,
    }
}

/// Position of `key` among the keys of `kv`, if it is there.
fn find_key(kv: &Vec<(String, String)>, key: &String) -> (r: Option<usize>)
    requires
        keys_of(pairs_of(kv@)).no_duplicates(),
    ensures
        r is None ==> !keys_of(pairs_of(kv@)).contains(key@),
        r matches Some(i) ==> i < kv@.len() && keys_of(pairs_of(kv@)).contains(key@)
            && keys_of(pairs_of(kv@)).index_of(key@) == i as int,
{
    let ghost keys = keys_of(pairs_of(kv@));
    let n = kv.len();
    let mut i: usize = 0;
    while i < n
        invariant
            n == kv@.len(),
            i <= n,
            keys == keys_of(pairs_of(kv@)),
            keys.no_duplicates(),
            forall|k: int| 0 <= k < i ==> keys[k] != key@,
        decreases n - i,
    {
        if kv[i].0 == *key {
            assert(keys[i as int] == key@);
            assert(keys.contains(key@));
            assert(keys.index_of(key@) == i as int) by {
                let c = keys.index_of(key@);
                assert(keys[c] == key@);
            }
            return Some(i);
        }
        assert(keys[i as int] == kv@[i as int].0@);
        i = i + 1;
    }
    None
}

/// Sets a string key-value pair, replacing the value of an existing key.
pub fn set(meta: &mut SessionMeta, key: &str, value: &str)
    requires
        old(meta).wf(),
    ensures
        final(meta).wf(),
        pairs_of(final(meta).kv@) == stored(pairs_of(old(meta).kv@), key@, value@),
        final(meta).tags == old(meta).tags,
        final(meta).session_name == old(meta).session_name,
        final(meta).description == old(meta).description,
        final(meta).environment == old(meta).environment,
{
    let ghost pairs = pairs_of(meta.kv@);
    let ghost keys = keys_of(pairs);
    let key_s = String::from_str(key);
    let value_s = String::from_str(value);
    match find_key(&meta.kv, &key_s) {
        Some(i) => {
            meta.kv.set(i, (key_s, value_s));
            assert(pairs_of(meta.kv@) =~= stored(pairs, key@, value@));
            assert(keys_of(pairs_of(meta.kv@)) =~= keys);
        },
        None => {
            meta.kv.push((key_s, value_s));
            assert(pairs_of(meta.kv@) =~= stored(pairs, key@, value@));
            assert(keys_of(pairs_of(meta.kv@)) =~= keys.push(key@));
        },
    }
}


/// Sets a numeric value, stored as its decimal string.
pub fn set_u64(meta: &mut SessionMeta, key: &str, value: u64)
    requires
        old(meta).wf(),
    ensures
        final(meta).wf(),
        pairs_of(final(meta).kv@) == stored(pairs_of(old(meta).kv@), key@, decimal(value as nat)),
        final(meta).tags == old(meta).tags,
        final(meta).session_name == old(meta).session_name,
        final(meta).description == old(meta).description,
        final(meta).environment == old(meta).environment,
{
    let v = u64_to_decimal(value);
    set(meta, key, v.as_str());
}

/// The tags after adding `label`: unchanged when it is already there.
pub open spec fn tagged(tags: Seq<Seq<char>>, label: Seq<char>) -> Seq<Seq<char>> {
    if tags.contains(label) {
        tags
    } else {
        tags.push(label)
    }
}

fn has_tag(tags: &Vec<String>, l: &String) -> (r: bool)
    ensures
        r == tags_of(tags@).contains(l@),
{
    let ghost ts = tags_of(tags@);
    let n = tags.len();
    let mut i: usize = 0;
    while i < n
        invariant
            n == tags@.len(),
            i <= n,
            ts == tags_of(tags@),
            forall|k: int| 0 <= k < i ==> ts[k] != l@,
        decreases n - i,
    {
        assert(ts[i as int] == tags@[i as int]@);
        if tags[i] == *l {
            assert(ts[i as int] == l@);
            return true;
        }
        i = i + 1;
    }
    false
}

/// Adds a tag; adding one that is already there changes nothing.
pub fn tag(meta: &mut SessionMeta, label: &str)
    requires
        old(meta).wf(),
    ensures
        final(meta).wf(),
        tags_of(final(meta).tags@) == tagged(tags_of(old(meta).tags@), label@),
        final(meta).kv == old(meta).kv,
        final(meta).session_name == old(meta).session_name,
        final(meta).description == old(meta).description,
        final(meta).environment == old(meta).environment,
{
    let ghost tags = tags_of(meta.tags@);
    let l = String::from_str(label);
    if !has_tag(&meta.tags, &l) {
        meta.tags.push(l);
        assert(tags_of(meta.tags@) =~= tags.push(label@));
    }
}

/// Removes a tag.
pub fn untag(meta: &mut SessionMeta, label: &str)
    requires
        old(meta).wf(),
    ensures
        final(meta).wf(),
        tags_of(final(meta).tags@) == tags_of(old(meta).tags@).filter(
            |t: Seq<char>| t != label@,
        ),
        final(meta).kv == old(meta).kv,
        final(meta).session_name == old(meta).session_name,
        final(meta).description == old(meta).description,
        final(meta).environment == old(meta).environment,
{
    let ghost tags = tags_of(meta.tags@);
    let ghost pred = |t: Seq<char>| t != label@;
    let l = String::from_str(label);
    let mut kept: Vec<String> = Vec::new();
    let n = meta.tags.len();
    let mut i: usize = 0;
    while i < n
        invariant
            n == meta.tags@.len(),
            i <= n,
            tags == tags_of(meta.tags@),
            pred == (|t: Seq<char>| t != label@),
            l@ == label@,
            tags_of(kept@) == tags.take(i as int).filter(pred),
        decreases n - i,
    {
        let ghost kept_before = kept@;
        let other = !(meta.tags[i] == l);
        if other {
            kept.push(meta.tags[i].clone());
        }
        proof {
            reveal(Seq::filter);
            let t1 = tags.take(i + 1);
            assert(t1.drop_last() =~= tags.take(i as int));
            assert(t1.last() == tags[i as int]);
            assert(tags[i as int] == meta.tags@[i as int]@);
            assert(pred(tags[i as int]) == other);
            if other {
                assert(tags_of(kept@) =~= tags_of(kept_before).push(tags[i as int]));
            } else {
                assert(tags_of(kept@) =~= tags_of(kept_before));
            }
        }
        i = i + 1;
    }
    assert(tags.take(n as int) =~= tags);
    proof {
        lemma_filter_keeps_unique(tags, pred);
    }
    meta.tags = kept;
}

proof fn lemma_filter_keeps_unique<A>(s: Seq<A>, pred: spec_fn(A) -> bool)
    requires
        s.no_duplicates(),
    ensures
        s.filter(pred).no_duplicates(),
        forall|a: A| s.filter(pred).contains(a) ==> s.contains(a) && pred(a),
    decreases s.len(),
{
    broadcast use vstd::seq_lib::group_filter_ensures;

    reveal(Seq::filter);
    if s.len() > 0 {
        let pre = s.drop_last();
        assert(pre.no_duplicates()) by {
            assert forall|i: int, j: int|
                0 <= i < pre.len() && 0 <= j < pre.len() && i != j implies pre[i] != pre[j] by {
                assert(pre[i] == s[i] && pre[j] == s[j]);
            }
        }
        lemma_filter_keeps_unique(pre, pred);
        if pred(s.last()) && pre.filter(pred).contains(s.last()) {
            pre.lemma_filter_contains_rev(pred, s.last());
            let k = choose|k: int| 0 <= k < pre.len() && pre[k] == s.last();
            assert(s[k] == s[s.len() - 1]);
        }
    }
    assert forall|a: A| s.filter(pred).contains(a) implies s.contains(a) && pred(a) by {
        s.lemma_filter_contains_rev(pred, a);
        let f = s.filter(pred);
        let k = choose|k: int| 0 <= k < f.len() && f[k] == a;
        s.lemma_filter_pred(pred, k);
    }
}

/// Sets the session's human-readable name.
pub fn set_name(meta: &mut SessionMeta, name: &str)
    ensures
        opt_view(final(meta).session_name) == Some(name@),
        final(meta).kv == old(meta).kv,
        final(meta).tags == old(meta).tags,
        final(meta).description == old(meta).description,
        final(meta).environment == old(meta).environment,
{
    meta.session_name = Some(String::from_str(name));
}

/// Sets the session's description.
pub fn set_description(meta: &mut SessionMeta, desc: &str)
    ensures
        opt_view(final(meta).description) == Some(desc@),
        final(meta).kv == old(meta).kv,
        final(meta).tags == old(meta).tags,
        final(meta).session_name == old(meta).session_name,
        final(meta).environment == old(meta).environment,
{
    meta.description = Some(String::from_str(desc));
}

/// Sets the environment label.
pub fn set_environment(meta: &mut SessionMeta, env: &str)
    ensures
        opt_view(final(meta).environment) == Some(env@),
        final(meta).kv == old(meta).kv,
        final(meta).tags == old(meta).tags,
        final(meta).session_name == old(meta).session_name,
        final(meta).description == old(meta).description,
{
    meta.environment = Some(String::from_str(env));
}

/// A snapshot (a full copy) of the metadata.
pub fn get(meta: &SessionMeta) -> (r: SessionMeta)
    ensures
        r.kv@ == meta.kv@,
        r.tags@ == meta.tags@,
        r.session_name == meta.session_name,
        r.description == meta.description,
        r.environment == meta.environment,
{
    let mut kv: Vec<(String, String)> = Vec::new();
    let mut i: usize = 0;
    while i < meta.kv.len()
        invariant
            i <= meta.kv@.len(),
            kv@ == meta.kv@.take(i as int),
        decreases meta.kv@.len() - i,
    {
        kv.push((meta.kv[i].0.clone(), meta.kv[i].1.clone()));
        i = i + 1;
        assert(kv@ =~= meta.kv@.take(i as int));
    }
    assert(meta.kv@.take(i as int) =~= meta.kv@);
    let mut tags: Vec<String> = Vec::new();
    let mut i: usize = 0;
    while i < meta.tags.len()
        invariant
            i <= meta.tags@.len(),
            tags@ == meta.tags@.take(i as int),
        decreases meta.tags@.len() - i,
    {
        tags.push(meta.tags[i].clone());
        i = i + 1;
        assert(tags@ =~= meta.tags@.take(i as int));
    }
    assert(meta.tags@.take(i as int) =~= meta.tags@);
    SessionMeta {
        kv,
        tags,
        session_name: copy_string_opt(&meta.session_name),
        description: copy_string_opt(&meta.description),
        environment: copy_string_opt(&meta.environment),
    }
}

/// Whether the metadata has no content at all: no key-value pair, no tag,
/// no session name, no description and no environment.
pub fn is_empty(meta: &SessionMeta) -> (r: bool)
    ensures
        r == (meta.kv@.len() == 0 && meta.tags@.len() == 0 && meta.session_name is None
            && meta.description is None && meta.environment is None),
{
    meta.kv.len() == 0 && meta.tags.len() == 0 && meta.session_name.is_none()
        && meta.description.is_none() && meta.environment.is_none()
}

/// Clears all metadata.
pub fn reset(meta: &mut SessionMeta)
    ensures
        final(meta).wf(),
        final(meta).kv@.len() == 0,
        final(meta).tags@.len() == 0,
        final(meta).session_name is None,
        final(meta).description is None,
        final(meta).environment is None,
{
    *meta = SessionMeta::new();
}

// ─── laws ─────────────────────────────────────────────────────────────────────

/// Reading back a key just set gives the value set; every other key keeps
/// its value; keys stay unique.
pub proof fn lemma_set_then_lookup(
    pairs: Seq<(Seq<char>, Seq<char>)>,
    key: Seq<char>,
    value: Seq<char>,
    other: Seq<char>,
)
    requires
        keys_of(pairs).no_duplicates(),
    ensures
        lookup(stored(pairs, key, value), key) == Some(value),
        other != key ==> lookup(stored(pairs, key, value), other) == lookup(pairs, other),
        keys_of(stored(pairs, key, value)).no_duplicates(),
{
    let keys = keys_of(pairs);
    let st = stored(pairs, key, value);
    let nkeys = keys_of(st);
    if keys.contains(key) {
        let i = keys.index_of(key);
        assert(nkeys =~= keys);
        assert(nkeys[i] == key);
        assert(nkeys.index_of(key) == i) by {
            let c = nkeys.index_of(key);
            assert(nkeys[c] == key);
        }
        if other != key && keys.contains(other) {
            let j = keys.index_of(other);
            assert(nkeys.index_of(other) == j) by {
                let c = nkeys.index_of(other);
                assert(nkeys[c] == other);
            }
        }
    } else {
        assert(nkeys =~= keys.push(key));
        assert(nkeys[keys.len() as int] == key);
        assert(nkeys.index_of(key) == keys.len()) by {
            let c = nkeys.index_of(key);
            assert(nkeys[c] == key);
        }
        if other != key {
            if keys.contains(other) {
                let j = keys.index_of(other);
                assert(nkeys[j] == other);
                assert(nkeys.index_of(other) == j) by {
                    let c = nkeys.index_of(other);
                    assert(nkeys[c] == other);
                }
            } else {
                assert(!nkeys.contains(other)) by {
                    if nkeys.contains(other) {
                        let c = nkeys.index_of(other);
                        assert(nkeys[c] == other);
                        assert(keys[c] == other);
                    }
                }
            }
        }
    }
}

/// Tagging is idempotent: adding a tag twice is the same as adding it once,
/// and the tag is then present exactly once.
pub proof fn lemma_tag_idempotent(tags: Seq<Seq<char>>, label: Seq<char>)
    requires
        tags.no_duplicates(),
    ensures
        tagged(tagged(tags, label), label) == tagged(tags, label),
        tagged(tags, label).contains(label),
        tagged(tags, label).no_duplicates(),
{
    if !tags.contains(label) {
        assert(tags.push(label)[tags.len() as int] == label);
    }
}

/// After `untag`, the label is gone and every other tag stays.
pub proof fn lemma_untag_removes(tags: Seq<Seq<char>>, label: Seq<char>, other: Seq<char>)
    requires
        tags.no_duplicates(),
    ensures
        !tags.filter(|t: Seq<char>| t != label).contains(label),
        other != label && tags.contains(other) ==> tags.filter(|t: Seq<char>| t != label).contains(
            other,
        ),
{
    let pred = |t: Seq<char>| t != label;
    lemma_filter_keeps_unique(tags, pred);
    if other != label && tags.contains(other) {
        let k = choose|k: int| 0 <= k < tags.len() && tags[k] == other;
        tags.lemma_filter_contains(pred, k);
    }
}


/// Filtering a sequence by a predicate that all of it meets leaves it as it
/// is.
proof fn lemma_filter_all_kept(s: Seq<Seq<char>>, label: Seq<char>)
    requires
        !s.contains(label),
    ensures
        s.filter(|t: Seq<char>| t != label) == s,
    decreases s.len(),
{
    reveal(Seq::filter);
    if s.len() > 0 {
        assert(!s.drop_last().contains(label)) by {
            if s.drop_last().contains(label) {
                let k = choose|k: int| 0 <= k < s.drop_last().len() && s.drop_last()[k] == label;
                assert(s[k] == label);
            }
        }
        lemma_filter_all_kept(s.drop_last(), label);
        assert(s.last() != label) by {
            assert(s[s.len() - 1] == s.last());
        }
        assert(s.drop_last().push(s.last()) =~= s);
    }
}

/// Untagging undoes tagging: adding a tag that was not there and then
/// removing it gives back the tags as they were, in their order.
pub proof fn lemma_tag_then_untag(tags: Seq<Seq<char>>, label: Seq<char>)
    requires
        !tags.contains(label),
    ensures
        tagged(tags, label).filter(|t: Seq<char>| t != label) == tags,
{
    reveal(Seq::filter);
    let pushed = tags.push(label);
    assert(pushed.drop_last() =~= tags);
    assert(pushed.last() == label);
    lemma_filter_all_kept(tags, label);
}

// ─── CI detection ─────────────────────────────────────────────────────────────

/// The environment variables that CI detection reads (`None` or `false`
/// where a variable is unset).
pub struct CiEnv {
    pub github_actions: bool,
    pub github_sha: Option<String>,
    pub github_ref_name: Option<String>,
    pub github_run_number: Option<String>,
    pub github_repository: Option<String>,
    pub gitlab_ci: bool,
    pub ci_commit_short_sha: Option<String>,
    pub ci_commit_ref_name: Option<String>,
    pub ci_pipeline_id: Option<String>,
    pub ci: bool,
}

/// `pairs` with `key` set to `value` when there is a value.
pub open spec fn stored_opt(pairs: Seq<(Seq<char>, Seq<char>)>, key: Seq<char>, value: Option<
    String,
>) -> Seq<(Seq<char>, Seq<char>)> {
    match value {
        Some(v) => stored(pairs, key, v@),
        None => pairs,
    }
}

/// Bytes taken by `c` in UTF-8.
pub open spec fn utf8_width(c: char) -> nat {
    if (c as u32) < 0x80 {
        1
    } else if (c as u32) < 0x800 {
        2
    } else if (c as u32) < 0x10000 {
        3
    } else {
        4
    }
}

/// Bytes taken by `s` in UTF-8.
pub open spec fn utf8_len(s: Seq<char>) -> nat
    decreases s.len(),
{
    if s.len() == 0 {
        0
    } else {
        utf8_width(s[0]) + utf8_len(s.drop_first())
    }
}

/// How many leading characters of `s` fit in `budget` bytes of UTF-8.
pub open spec fn chars_within(s: Seq<char>, budget: nat) -> nat
    decreases s.len(),
{
    if s.len() == 0 || utf8_width(s[0]) > budget {
        0
    } else {
        1 + chars_within(s.drop_first(), (budget - utf8_width(s[0])) as nat)
    }
}

/// The first eight bytes of a commit hash (all of it when shorter), as the
/// characters they hold.
pub open spec fn short_sha(v: Seq<char>) -> Seq<char> {
    v.take(chars_within(v, 8) as int)
}

/// Whether a commit hash can be cut after its eighth byte: it is at most
/// eight bytes long, or a character ends exactly there.
pub open spec fn sha_cuttable(v: Seq<char>) -> bool {
    utf8_len(v) <= 8 || utf8_len(short_sha(v)) == 8
}

/// UTF-8 width of `c`.
fn utf8_width_of(c: char) -> (w: u64)
    ensures
        w == utf8_width(c),
{
    let x: u32 = c as u32;
    if x < 0x80 {
        1
    } else if x < 0x800 {
        2
    } else if x < 0x10000 {
        3
    } else {
        4
    }
}

/// The first eight bytes of `v`, as a string.
fn short_sha_of(v: &str) -> (r: String)
    ensures
        r@ == short_sha(v@),
{
    let cs = crate::text::chars_of(v);
    let n = cs.len();
    let mut k: usize = 0;
    let mut budget: u64 = 8;
    let mut done = false;
    assert(v@.skip(0) =~= v@);
    while k < n && !done
        invariant
            n == cs@.len(),
            cs@ == v@,
            k <= n,
            budget <= 8,
            done ==> chars_within(v@.skip(k as int), budget as nat) == 0,
            chars_within(v@, 8) == k + chars_within(v@.skip(k as int), budget as nat),
        decreases n - k + (if done {
            0int
        } else {
            1int
        }),
    {
        let w = utf8_width_of(cs[k]);
        let ghost rest = v@.skip(k as int);
        assert(rest[0] == cs@[k as int]);
        if w > budget {
            done = true;
        } else {
            budget = budget - w;
            k = k + 1;
            assert(rest.drop_first() =~= v@.skip(k as int));
        }
    }
    assert(k == n ==> v@.skip(k as int).len() == 0);
    let short = v.substring_char(0, k);
    assert(v@.subrange(0, k as int) =~= v@.take(k as int));
    String::from_str(short)
}

/// The key-value pairs after CI detection: GitHub Actions contributes the
/// short commit, branch, run number and repository, GitLab CI its commit,
/// branch and pipeline; either, or a generic `CI`, marks the environment
/// as `ci`.
pub open spec fn ci_pairs(pairs: Seq<(Seq<char>, Seq<char>)>, env: CiEnv) -> Seq<(Seq<char>, Seq<char>)> {
    let p1 = if env.github_actions {
        let a = match env.github_sha {
            Some(v) => stored(pairs, "git_commit"@, short_sha(v@)),
            None => pairs,
        };
        let b = stored_opt(a, "branch"@, env.github_ref_name);
        let c = stored_opt(b, "ci_run"@, env.github_run_number);
        let d = stored_opt(c, "repo"@, env.github_repository);
        stored(d, "environment"@, "ci"@)
    } else {
        pairs
    };
    let p2 = if env.gitlab_ci {
        let a = stored_opt(p1, "git_commit"@, env.ci_commit_short_sha);
        let b = stored_opt(a, "branch"@, env.ci_commit_ref_name);
        let c = stored_opt(b, "ci_run"@, env.ci_pipeline_id);
        stored(c, "environment"@, "ci"@)
    } else {
        p1
    };
    if env.ci {
        stored(p2, "environment"@, "ci"@)
    } else {
        p2
    }
}

/// The tags after CI detection.
pub open spec fn ci_tags(tags: Seq<Seq<char>>, env: CiEnv) -> Seq<Seq<char>> {
    let t1 = if env.github_actions {
        tagged(tags, "github-actions"@)
    } else {
        tags
    };
    let t2 = if env.gitlab_ci {
        tagged(t1, "gitlab-ci"@)
    } else {
        t1
    };
    if env.ci {
        tagged(t2, "ci"@)
    } else {
        t2
    }
}

fn set_opt(meta: &mut SessionMeta, key: &str, value: &Option<String>)
    requires
        old(meta).wf(),
    ensures
        final(meta).wf(),
        pairs_of(final(meta).kv@) == stored_opt(pairs_of(old(meta).kv@), key@, *value),
        final(meta).tags == old(meta).tags,
        final(meta).session_name == old(meta).session_name,
        final(meta).description == old(meta).description,
        final(meta).environment == old(meta).environment,
{
    match value {
        Some(v) => set(meta, key, v.as_str()),
        None => {},
    }
}

/// Records what the CI environment `env` tells: tags for the CI systems
/// seen and their commit, branch, run and repository.
pub fn apply_ci_env(meta: &mut SessionMeta, env: &CiEnv)
    requires
        old(meta).wf(),
        env.github_actions ==> (env.github_sha matches Some(v) ==> sha_cuttable(v@)),
    ensures
        final(meta).wf(),
        pairs_of(final(meta).kv@) == ci_pairs(pairs_of(old(meta).kv@), *env),
        tags_of(final(meta).tags@) == ci_tags(tags_of(old(meta).tags@), *env),
        final(meta).session_name == old(meta).session_name,
        final(meta).description == old(meta).description,
        final(meta).environment == old(meta).environment,
{
    if env.github_actions {
        tag(meta, "github-actions");
        match &env.github_sha {
            Some(v) => {
                let short = short_sha_of(v.as_str());
                set(meta, "git_commit", short.as_str());
            },
            None => {},
        }
        set_opt(meta, "branch", &env.github_ref_name);
        set_opt(meta, "ci_run", &env.github_run_number);
        set_opt(meta, "repo", &env.github_repository);
        set(meta, "environment", "ci");
    }
    if env.gitlab_ci {
        tag(meta, "gitlab-ci");
        set_opt(meta, "git_commit", &env.ci_commit_short_sha);
        set_opt(meta, "branch", &env.ci_commit_ref_name);
        set_opt(meta, "ci_run", &env.ci_pipeline_id);
        set(meta, "environment", "ci");
    }
    if env.ci {
        tag(meta, "ci");
        set(meta, "environment", "ci");
    }
}

/// Whether no commit hash has been recorded yet (so one may be asked of
/// git).
pub fn needs_git_commit(meta: &SessionMeta) -> (r: bool)
    requires
        meta.wf(),
    ensures
        r == !keys_of(pairs_of(meta.kv@)).contains("git_commit"@),
{
    let k = String::from_str("git_commit");
    find_key(&meta.kv, &k).is_none()
}

// ─── environment variables ────────────────────────────────────────────────────

/// What `str::to_uppercase` gives for `s`.
pub uninterp spec fn upper_case(s: Seq<char>) -> Seq<char>;

/// What `str::to_lowercase` gives for `s`.
pub uninterp spec fn lower_case(s: Seq<char>) -> Seq<char>;

/// Calls `str::to_uppercase`: `s` in Unicode upper case. The result
/// depends on `s` alone.
#[verifier::external_body]
fn to_upper(s: &str) -> (r: String)
    ensures
        r@ == upper_case(s@),
{
    s.to_uppercase()
}

/// Calls `str::to_lowercase`: `s` in Unicode lower case. The result
/// depends on `s` alone.
#[verifier::external_body]
fn to_lower(s: &str) -> (r: String)
    ensures
        r@ == lower_case(s@),
{
    s.to_lowercase()
}

/// The key under which an environment variable is recorded, if it is one
/// of the prefix's: the rest of its name after the upper-cased prefix and
/// an underscore, in lower case.
pub open spec fn env_key(prefix: Seq<char>, name: Seq<char>) -> Option<Seq<char>> {
    let p = upper_case(prefix) + seq!['_'];
    if p.is_prefix_of(name) {
        Some(lower_case(name.skip(p.len() as int)))
    } else {
        None
    }
}

/// The pairs after loading `vars` (in order) under `prefix`.
pub open spec fn loaded(pairs: Seq<(Seq<char>, Seq<char>)>, prefix: Seq<char>, vars: Seq<(String, String)>) -> Seq<
    (Seq<char>, Seq<char>),
>
    decreases vars.len(),
{
    if vars.len() == 0 {
        pairs
    } else {
        let prev = loaded(pairs, prefix, vars.drop_last());
        match env_key(prefix, vars.last().0@) {
            Some(k) => stored(prev, k, vars.last().1@),
            None => prev,
        }
    }
}

/// Records every variable of `vars` whose name starts with `prefix` in
/// upper case and an underscore, under the rest of its name in lower case.
pub fn load_from_env(meta: &mut SessionMeta, prefix: &str, vars: &Vec<(String, String)>)
    requires
        old(meta).wf(),
    ensures
        final(meta).wf(),
        pairs_of(final(meta).kv@) == loaded(pairs_of(old(meta).kv@), prefix@, vars@),
        final(meta).tags == old(meta).tags,
        final(meta).session_name == old(meta).session_name,
        final(meta).description == old(meta).description,
        final(meta).environment == old(meta).environment,
{
    let mut p = to_upper(prefix);
    p.push('_');
    let pc = crate::text::chars_of(p.as_str());
    let mut i: usize = 0;
    while i < vars.len()
        invariant
            i <= vars@.len(),
            meta.wf(),
            pc@ == upper_case(prefix@) + seq!['_'],
            pairs_of(meta.kv@) == loaded(pairs_of(old(meta).kv@), prefix@, vars@.take(i as int)),
            meta.tags == old(meta).tags,
            meta.session_name == old(meta).session_name,
            meta.description == old(meta).description,
            meta.environment == old(meta).environment,
        decreases vars@.len() - i,
    {
        proof {
            assert(vars@.take(i + 1).drop_last() =~= vars@.take(i as int));
            assert(vars@.take(i + 1).last() == vars@[i as int]);
        }
        let name = crate::text::chars_of(vars[i].0.as_str());
        if crate::scan::starts_with(&name, &pc) {
            let rest = crate::scan::string_of(&tail(&name, pc.len()));
            let key = to_lower(rest.as_str());
            set(meta, key.as_str(), vars[i].1.as_str());
        }
        i = i + 1;
    }
    assert(vars@.take(vars@.len() as int) =~= vars@);
}

fn tail(v: &Vec<char>, from: usize) -> (r: Vec<char>)
    requires
        from <= v@.len(),
    ensures
        r@ == v@.skip(from as int),
{
    let mut out: Vec<char> = Vec::new();
    let mut k: usize = from;
    while k < v.len()
        invariant
            from <= k <= v@.len(),
            out@ == v@.subrange(from as int, k as int),
        decreases v@.len() - k,
    {
        out.push(v[k]);
        k = k + 1;
        assert(out@ =~= v@.subrange(from as int, k as int));
    }
    assert(v@.subrange(from as int, v@.len() as int) =~= v@.skip(from as int));
    out
}

} // verus!
