//! The decoded request environment: an immutable mapping from header name to
//! header value, keys unique, decode order preserved, plus its read-only
//! accessors.

use vstd::prelude::*;
use crate::parse::parse_dec;

verus! {

/// The character-level contents of a vector of owned string pairs.
pub open spec fn pairs_view(v: Seq<(String, String)>) -> Seq<(Seq<char>, Seq<char>)> {
    v.map_values(|p: (String, String)| (p.0@, p.1@))
}

/// True when no two entries share a key.
pub open spec fn unique_keys(s: Seq<(Seq<char>, Seq<char>)>) -> bool {
    forall|i: int, j: int| 0 <= i < j < s.len() ==> (#[trigger] s[i]).0 != (#[trigger] s[j]).0
}

/// True when some entry of `s` has key `k`.
pub open spec fn has_key(s: Seq<(Seq<char>, Seq<char>)>, k: Seq<char>) -> bool {
    exists|i: int| 0 <= i < s.len() && (#[trigger] s[i]).0 == k
}

/// Mapping-insert into an association list: if `k` is already bound, the first
/// (and, with unique keys, only) binding is replaced in place; otherwise the
/// new pair goes to the end.
pub open spec fn env_insert(
    s: Seq<(Seq<char>, Seq<char>)>,
    k: Seq<char>,
    v: Seq<char>,
) -> Seq<(Seq<char>, Seq<char>)>
    decreases s.len(),
{
    if s.len() == 0 {
        seq![(k, v)]
    } else if s[0].0 == k {
        seq![(k, v)] + s.drop_first()
    } else {
        seq![s[0]] + env_insert(s.drop_first(), k, v)
    }
}

/// The environment produced by inserting the given pairs in order: a repeated
/// key keeps its first position and the later value wins.
pub open spec fn env_from_pairs(pairs: Seq<(Seq<char>, Seq<char>)>) -> Seq<(Seq<char>, Seq<char>)>
    decreases pairs.len(),
{
    if pairs.len() == 0 {
        Seq::empty()
    } else {
        env_insert(env_from_pairs(pairs.drop_last()), pairs.last().0, pairs.last().1)
    }
}

/// The mapping an association list denotes (meaningful when keys are unique).
pub open spec fn map_of(s: Seq<(Seq<char>, Seq<char>)>) -> Map<Seq<char>, Seq<char>>
    decreases s.len(),
{
    if s.len() == 0 {
        Map::empty()
    } else {
        map_of(s.drop_first()).insert(s[0].0, s[0].1)
    }
}

/// The keys bound by `env_insert(s, k, v)` are the keys of `s` together with `k`.
pub proof fn lemma_env_insert_has_key(
    s: Seq<(Seq<char>, Seq<char>)>,
    k: Seq<char>,
    v: Seq<char>,
    q: Seq<char>,
)
    ensures
        has_key(env_insert(s, k, v), q) <==> (has_key(s, q) || q == k),
    decreases s.len(),
{
    let t = env_insert(s, k, v);
    if s.len() == 0 {
        assert(t[0] == (k, v));
        if has_key(t, q) {
            let i = choose|i: int| 0 <= i < t.len() && t[i].0 == q;
            assert(i == 0);
        }
    } else if s[0].0 == k {
        assert(t[0] == (k, v));
        if has_key(t, q) {
            let i = choose|i: int| 0 <= i < t.len() && t[i].0 == q;
            if i > 0 {
                assert(t[i] == s[i]);
            }
        }
        if has_key(s, q) {
            let i = choose|i: int| 0 <= i < s.len() && s[i].0 == q;
            if i == 0 {
                assert(t[0].0 == q);
            } else {
                assert(t[i] == s[i]);
            }
        }
    } else {
        lemma_env_insert_has_key(s.drop_first(), k, v, q);
        let t2 = env_insert(s.drop_first(), k, v);
        assert(t[0] == s[0]);
        assert(forall|i: int| 1 <= i < t.len() ==> #[trigger] t[i] == t2[i - 1]);
        if has_key(t, q) {
            let i = choose|i: int| 0 <= i < t.len() && t[i].0 == q;
            if i > 0 {
                assert(t2[i - 1].0 == q);
            }
        }
        if has_key(s, q) {
            let i = choose|i: int| 0 <= i < s.len() && s[i].0 == q;
            if i == 0 {
                assert(t[0].0 == q);
            } else {
                assert(s.drop_first()[i - 1].0 == q);
                assert(has_key(s.drop_first(), q));
                let j = choose|j: int| 0 <= j < t2.len() && t2[j].0 == q;
                assert(t[j + 1].0 == q);
            }
        }
        if q == k {
            let j = choose|j: int| 0 <= j < t2.len() && t2[j].0 == q;
            assert(t[j + 1].0 == q);
        }
    }
}

/// Inserting preserves key uniqueness.
pub proof fn lemma_env_insert_unique(s: Seq<(Seq<char>, Seq<char>)>, k: Seq<char>, v: Seq<char>)
    requires
        unique_keys(s),
    ensures
        unique_keys(env_insert(s, k, v)),
    decreases s.len(),
{
    let t = env_insert(s, k, v);
    if s.len() == 0 {
    } else if s[0].0 == k {
        assert(t[0] == (k, v));
        assert(forall|i: int| 1 <= i < t.len() ==> #[trigger] t[i] == s[i]);
    } else {
        assert(unique_keys(s.drop_first())) by {
            assert(forall|i: int|
                0 <= i < s.len() - 1 ==> #[trigger] s.drop_first()[i] == s[i + 1]);
        }
        lemma_env_insert_unique(s.drop_first(), k, v);
        let t2 = env_insert(s.drop_first(), k, v);
        assert(t[0] == s[0]);
        assert(forall|i: int| 1 <= i < t.len() ==> #[trigger] t[i] == t2[i - 1]);
        // the head key differs from every key of the tail's insertion
        assert forall|i: int| 1 <= i < t.len() implies t[i].0 != s[0].0 by {
            lemma_env_insert_has_key(s.drop_first(), k, v, t2[i - 1].0);
            if has_key(s.drop_first(), t2[i - 1].0) {
                let j = choose|j: int|
                    0 <= j < s.drop_first().len() && s.drop_first()[j].0 == t2[i - 1].0;
                assert(s[j + 1].0 == s.drop_first()[j].0);
            }
            assert(exists|j: int| 0 <= j < t2.len() && (#[trigger] t2[j]).0 == t2[i - 1].0);
        }
    }
}

/// When `k` is not yet bound, inserting appends the pair.
pub proof fn lemma_env_insert_fresh(s: Seq<(Seq<char>, Seq<char>)>, k: Seq<char>, v: Seq<char>)
    requires
        !has_key(s, k),
    ensures
        env_insert(s, k, v) == s.push((k, v)),
    decreases s.len(),
{
    if s.len() == 0 {
        assert(env_insert(s, k, v) =~= s.push((k, v)));
    } else {
        assert(s[0].0 != k);
        assert(!has_key(s.drop_first(), k)) by {
            if has_key(s.drop_first(), k) {
                let i = choose|i: int|
                    0 <= i < s.drop_first().len() && s.drop_first()[i].0 == k;
                assert(s[i + 1].0 == k);
            }
        }
        lemma_env_insert_fresh(s.drop_first(), k, v);
        assert(env_insert(s, k, v) =~= s.push((k, v)));
    }
}

/// The environment built from any pair sequence has unique keys.
pub proof fn lemma_env_from_pairs_unique(pairs: Seq<(Seq<char>, Seq<char>)>)
    ensures
        unique_keys(env_from_pairs(pairs)),
    decreases pairs.len(),
{
    if pairs.len() > 0 {
        lemma_env_from_pairs_unique(pairs.drop_last());
        lemma_env_insert_unique(env_from_pairs(pairs.drop_last()), pairs.last().0, pairs.last().1);
    }
}

/// Building an environment from pairs whose keys are already unique changes
/// nothing: every insert appends.
pub proof fn lemma_env_from_pairs_of_unique(pairs: Seq<(Seq<char>, Seq<char>)>)
    requires
        unique_keys(pairs),
    ensures
        env_from_pairs(pairs) == pairs,
    decreases pairs.len(),
{
    if pairs.len() > 0 {
        let fore = pairs.drop_last();
        assert(unique_keys(fore)) by {
            assert(forall|i: int| 0 <= i < fore.len() ==> #[trigger] fore[i] == pairs[i]);
        }
        lemma_env_from_pairs_of_unique(fore);
        assert(!has_key(fore, pairs.last().0)) by {
            if has_key(fore, pairs.last().0) {
                let i = choose|i: int| 0 <= i < fore.len() && fore[i].0 == pairs.last().0;
                assert(pairs[i].0 == pairs[pairs.len() - 1].0);
            }
        }
        lemma_env_insert_fresh(fore, pairs.last().0, pairs.last().1);
        assert(env_from_pairs(pairs) =~= pairs);
    }
}

/// The mapping contains a key exactly when some entry has it.
pub proof fn lemma_map_of_has_key(s: Seq<(Seq<char>, Seq<char>)>, k: Seq<char>)
    ensures
        map_of(s).contains_key(k) <==> has_key(s, k),
    decreases s.len(),
{
    if s.len() > 0 {
        lemma_map_of_has_key(s.drop_first(), k);
        if s[0].0 == k {
        } else if map_of(s).contains_key(k) {
            let i = choose|i: int|
                0 <= i < s.drop_first().len() && s.drop_first()[i].0 == k;
            assert(s[i + 1].0 == k);
        } else if has_key(s, k) {
            let i = choose|i: int| 0 <= i < s.len() && s[i].0 == k;
            assert(s.drop_first()[i - 1].0 == k);
        }
    }
}

/// With unique keys, the mapping sends each entry's key to that entry's value.
pub proof fn lemma_map_of_at(s: Seq<(Seq<char>, Seq<char>)>, j: int)
    requires
        unique_keys(s),
        0 <= j < s.len(),
    ensures
        map_of(s).contains_key(s[j].0),
        map_of(s)[s[j].0] == s[j].1,
    decreases s.len(),
{
    if j == 0 {
        // the head's binding is the outermost insert
    } else {
        assert(unique_keys(s.drop_first())) by {
            assert(forall|i: int|
                0 <= i < s.len() - 1 ==> #[trigger] s.drop_first()[i] == s[i + 1]);
        }
        lemma_map_of_at(s.drop_first(), j - 1);
        assert(s.drop_first()[j - 1] == s[j]);
        assert(s[j].0 != s[0].0);
    }
}

/// Replacing the first binding of `k` in place is exactly `env_insert` when
/// nothing before position `j` binds `k`.
pub proof fn lemma_env_insert_at(
    s: Seq<(Seq<char>, Seq<char>)>,
    k: Seq<char>,
    v: Seq<char>,
    j: int,
)
    requires
        0 <= j < s.len(),
        s[j].0 == k,
        forall|l: int| 0 <= l < j ==> (#[trigger] s[l]).0 != k,
    ensures
        env_insert(s, k, v) == s.update(j, (k, v)),
    decreases j,
{
    if j == 0 {
        assert(env_insert(s, k, v) =~= s.update(0, (k, v)));
    } else {
        let t = s.drop_first();
        assert(t[j - 1].0 == k);
        assert(forall|l: int| 0 <= l < j - 1 ==> (#[trigger] t[l]).0 != k);
        lemma_env_insert_at(t, k, v, j - 1);
        assert(s[0].0 != k);
        assert(env_insert(s, k, v) =~= s.update(j, (k, v)));
    }
}

/// Inserts `(k, v)` into the entry vector with mapping semantics: the first
/// entry named `k` takes the new value, or the pair is appended.
pub(crate) fn insert_pair(env: &mut Vec<(String, String)>, k: String, v: String)
    ensures
        pairs_view(final(env)@) == env_insert(pairs_view(old(env)@), k@, v@),
{
    let ghost orig = pairs_view(env@);
    let mut i: usize = 0;
    while i < env.len()
        invariant
            0 <= i <= env@.len(),
            env@ == old(env)@,
            orig == pairs_view(env@),
            forall|j: int| 0 <= j < i ==> (#[trigger] pairs_view(env@)[j]).0 != k@,
        decreases env@.len() - i,
    {
        if env[i].0 == k {
            proof {
                assert(pairs_view(env@)[i as int].0 == k@);
                lemma_env_insert_at(orig, k@, v@, i as int);
            }
            let _replaced = env.remove(i);
            env.insert(i, (k, v));
            proof {
                assert(pairs_view(env@) =~~= orig.update(i as int, (k@, v@)));
            }
            return;
        }
        proof {
            assert(pairs_view(env@)[i as int].0 == env@[i as int].0@);
        }
        i += 1;
    }
    proof {
        if has_key(orig, k@) {
            let j = choose|j: int| 0 <= j < orig.len() && orig[j].0 == k@;
            assert(pairs_view(env@)[j].0 == k@);
        }
        lemma_env_insert_fresh(orig, k@, v@);
    }
    env.push((k, v));
    proof {
        assert(pairs_view(env@) =~~= orig.push((k@, v@)));
    }
}

/// The decoded request environment: header names and values, in decode order,
/// with unique names.
#[derive(Debug, PartialEq, Eq)]
pub struct SCGIEnv {
    /// The decoded (name, value) entries.
    pub env: Vec<(String, String)>,
}

impl View for SCGIEnv {
    type V = Map<Seq<char>, Seq<char>>;

    open spec fn view(&self) -> Map<Seq<char>, Seq<char>> {
        map_of(self.ordered())
    }
}

impl SCGIEnv {
    /// The entries, in decode order, at the character level.
    pub open spec fn ordered(&self) -> Seq<(Seq<char>, Seq<char>)> {
        pairs_view(self.env@)
    }

    /// Well-formed: the decoder never hands out two entries with one name.
    pub open spec fn wf(&self) -> bool {
        unique_keys(self.ordered())
    }

    /// The value stored under `name`, if any.
    pub fn get(&self, name: &str) -> (r: Option<String>)
        requires
            self.wf(),
        ensures
            r is Some <==> self@.contains_key(name@),
            r is Some ==> r->0@ == self@[name@],
    {
        let key: String = name.to_owned();
        let mut i: usize = 0;
        while i < self.env.len()
            invariant
                0 <= i <= self.env@.len(),
                key@ == name@,
                self.wf(),
                forall|j: int| 0 <= j < i ==> (#[trigger] self.ordered()[j]).0 != name@,
            decreases self.env@.len() - i,
        {
            if self.env[i].0 == key {
                proof {
                    assert(self.ordered()[i as int].0 == name@);
                    lemma_map_of_at(self.ordered(), i as int);
                }
                return Some(self.env[i].1.clone());
            }
            proof {
                assert(self.ordered()[i as int].0 == self.env@[i as int].0@);
            }
            i += 1;
        }
        proof {
            lemma_map_of_has_key(self.ordered(), name@);
            if has_key(self.ordered(), name@) {
                let j = choose|j: int|
                    0 <= j < self.ordered().len() && self.ordered()[j].0 == name@;
                assert(self.ordered()[j].0 != name@);
            }
        }
        None
    }

    /// The request method, which the front-end server always forwards.
    pub fn method(&self) -> (r: String)
        requires
            self.wf(),
            self@.contains_key("REQUEST_METHOD"@),
        ensures
            r@ == self@["REQUEST_METHOD"@],
    {
        let v = self.get("REQUEST_METHOD");
        v.unwrap()
    }

    /// The body length announced by the request: the `CONTENT_LENGTH` value
    /// read as a decimal integer, or 0 when the key is absent or its value is
    /// not a (machine-representable) number.
    pub fn content_length(&self) -> (r: usize)
        requires
            self.wf(),
        ensures
            r == spec_content_length(self@),
    {
        match self.get("CONTENT_LENGTH") {
            None => 0,
            Some(v) => {
                match crate::parse::parse_dec_u64(v.as_str()) {
                    None => 0,
                    Some(x) => {
                        if x <= usize::MAX as u64 {
                            x as usize
                        } else {
                            0
                        }
                    },
                }
            },
        }
    }

    /// The value under `name` read as a TCP/UDP port number; `None` when the
    /// key is absent or the value is not a decimal number up to 65535.
    pub fn port(&self, name: &str) -> (r: Option<u16>)
        requires
            self.wf(),
        ensures
            r == spec_port(self@, name@),
    {
        match self.get(name) {
            None => None,
            Some(v) => {
                match crate::parse::parse_dec_u64(v.as_str()) {
                    None => None,
                    Some(x) => {
                        if x <= 65535 {
                            Some(x as u16)
                        } else {
                            None
                        }
                    },
                }
            },
        }
    }

    /// The query parameters in order-preserving form: every (name, value)
    /// pair of `QUERY_STRING`, repeated names retained, in their original
    /// order. `None` when `QUERY_STRING` is absent. Callers that need
    /// multi-valued parameters must use this form.
    pub fn query_vec(&self) -> (r: Option<Vec<(String, String)>>)
        requires
            self.wf(),
        ensures
            r is Some <==> self@.contains_key("QUERY_STRING"@),
            r is Some ==> pairs_view(r->0@) == crate::outside::form_decoded(
                self@["QUERY_STRING"@],
            ),
    {
        match self.get("QUERY_STRING") {
            None => None,
            Some(v) => Some(crate::outside::parse_form_urlencoded(v.as_str())),
        }
    }

    /// The query parameters in deduplicating form: each name once, bound to
    /// its last occurrence's value, names in first-occurrence order. `None`
    /// when `QUERY_STRING` is absent.
    pub fn query(&self) -> (r: Option<Vec<(String, String)>>)
        requires
            self.wf(),
        ensures
            r is Some <==> self@.contains_key("QUERY_STRING"@),
            r is Some ==> pairs_view(r->0@) == env_from_pairs(
                crate::outside::form_decoded(self@["QUERY_STRING"@]),
            ),
            r is Some ==> unique_keys(pairs_view(r->0@)),
    {
        match self.query_vec() {
            None => None,
            Some(pairs) => {
                let deduped = dedup_pairs(&pairs);
                Some(deduped)
            },
        }
    }

    /// The value under `name` parsed as a URL; `None` when the key is absent
    /// or the value does not parse.
    pub fn url(&self, name: &str) -> (r: Option<url::Url>)
        requires
            self.wf(),
        ensures
            r is Some <==> (self@.contains_key(name@) && crate::outside::url_parse_ok(
                self@[name@],
            )),
    {
        match self.get(name) {
            None => None,
            Some(v) => crate::outside::parse_url_str(v.as_str()),
        }
    }

    /// The cookies of the request, from `HTTP_COOKIE`: the value is split on
    /// `;`, each segment split on its first `=` only, a single leading space
    /// trimmed from each name; each name once, its last occurrence's value
    /// winning. `None` when `HTTP_COOKIE` is absent. A segment without `=` is
    /// left out by the precondition, as the wire format never produces one
    /// from a conforming client.
    pub fn cookies(&self) -> (r: Option<Vec<(String, String)>>)
        requires
            self.wf(),
            self@.contains_key("HTTP_COOKIE"@) ==> cookie_wf(self@["HTTP_COOKIE"@]),
        ensures
            r is Some <==> self@.contains_key("HTTP_COOKIE"@),
            r is Some ==> pairs_view(r->0@) == env_from_pairs(
                cookie_pairs(self@["HTTP_COOKIE"@]),
            ),
            r is Some ==> unique_keys(pairs_view(r->0@)),
    {
        let raw = match self.get("HTTP_COOKIE") {
            None => {
                return None;
            },
            Some(x) => x,
        };
        let s = raw.as_str();
        let n = s.unicode_len();
        let ghost cs = raw@;
        let ghost segs = split_semis(cs);
        let ghost cps = cookie_pairs(cs);
        let mut out: Vec<(String, String)> = Vec::new();
        let mut a: usize = 0;
        let ghost mut gi: int = 0;
        proof {
            assert(cs == self@["HTTP_COOKIE"@]);
            assert(cs.skip(0) =~= cs);
            assert(cps.take(0) =~~= Seq::<(Seq<char>, Seq<char>)>::empty());
            assert(pairs_view(out@) =~~= Seq::<(Seq<char>, Seq<char>)>::empty());
            lemma_split_semis_nonempty(cs);
        }
        loop
            invariant_except_break
                0 <= a <= n,
                n == cs.len(),
                s@ == cs,
                cookie_wf(cs),
                segs == split_semis(cs),
                cps == cookie_pairs(cs),
                0 <= gi < segs.len(),
                split_semis(cs.skip(a as int)) == segs.skip(gi),
                pairs_view(out@) == env_from_pairs(cps.take(gi)),
                unique_keys(pairs_view(out@)),
            ensures
                pairs_view(out@) == env_from_pairs(cps),
                unique_keys(pairs_view(out@)),
            decreases n - a,
        {
            let mut b = a;
            while b < n && s.get_char(b) != ';'
                invariant
                    a <= b <= n,
                    n == cs.len(),
                    s@ == cs,
                    forall|k: int| a <= k < b ==> (#[trigger] cs[k]) != ';',
                decreases n - b,
            {
                b += 1;
            }
            proof {
                lemma_split_semis_segment(cs, a as int, b as int);
                assert(segs.skip(gi)[0] == cs.subrange(a as int, b as int));
                assert(segs[gi] == cs.subrange(a as int, b as int));
            }
            let ghost seg = cs.subrange(a as int, b as int);
            proof {
                assert(find_eq(segs[gi]) is Some);
                lemma_find_eq(seg);
            }
            let ghost i0 = find_eq(seg)->0;
            proof {
                assert(forall|j: int| 0 <= j < seg.len() ==> #[trigger] seg[j] == cs[a + j]);
            }
            let mut e = a;
            while e < b && s.get_char(e) != '='
                invariant
                    a <= e <= b,
                    b <= n,
                    n == cs.len(),
                    s@ == cs,
                    seg == cs.subrange(a as int, b as int),
                    find_eq(seg) is Some,
                    i0 == find_eq(seg)->0,
                    0 <= i0 < seg.len(),
                    seg[i0] == '=',
                    forall|j: int| 0 <= j < i0 ==> (#[trigger] seg[j]) != '=',
                    e <= a + i0,
                decreases b - e,
            {
                proof {
                    assert(cs[e as int] == seg[e - a]);
                    assert(e - a < i0);
                }
                e += 1;
            }
            proof {
                assert(seg.len() == b - a);
                assert(a + i0 < b);
                assert(cs[a + i0] == seg[i0]);
                if e < a + i0 {
                    assert(cs[e as int] == seg[e - a]);
                    assert(seg[e - a] != '=');
                    assert(false);
                }
                assert(e == a + i0);
            }
            let name_from = if e > a && s.get_char(a) == ' ' {
                a + 1
            } else {
                a
            };
            let name = s.substring_char(name_from, e);
            let value = s.substring_char(e + 1, b);
            proof {
                let rawname = seg.take(i0);
                assert(rawname =~= cs.subrange(a as int, a + i0));
                if e > a && cs[a as int] == ' ' {
                    assert(rawname.len() > 0 && rawname[0] == ' ');
                    assert(name@ =~= rawname.drop_first());
                } else {
                    if e > a {
                        assert(rawname[0] == cs[a as int]);
                    }
                    assert(name@ =~= rawname);
                }
                assert(value@ =~= seg.subrange(i0 + 1, seg.len() as int));
                assert(cookie_pair(seg) == (name@, value@));
                assert(cps[gi] == cookie_pair(segs[gi]));
            }
            let ghost pre = pairs_view(out@);
            insert_pair(&mut out, name.to_owned(), value.to_owned());
            proof {
                lemma_env_insert_unique(pre, cookie_pair(seg).0, cookie_pair(seg).1);
                assert(cps.take(gi + 1).drop_last() =~~= cps.take(gi));
                assert(cps.take(gi + 1).last() == cps[gi]);
                assert(pairs_view(out@) == env_from_pairs(cps.take(gi + 1)));
                gi = gi + 1;
            }
            if b == n {
                proof {
                    assert(segs.skip(gi - 1).len() == 1);
                    assert(gi == segs.len());
                    assert(cps.take(gi) =~~= cps);
                }
                break;
            }
            a = b + 1;
            proof {
                lemma_split_semis_nonempty(cs.skip(a as int));
                assert(segs.skip(gi - 1) == seq![seg] + split_semis(cs.skip(a as int)));
                assert(split_semis(cs.skip(a as int)) =~~= segs.skip(gi - 1).drop_first());
                assert(segs.skip(gi - 1).drop_first() =~~= segs.skip(gi));
                assert(gi < segs.len());
            }
        }
        Some(out)
    }

    /// The value under `name` taken as a filesystem path; `None` when the key
    /// is absent or the value is empty or holds a NUL character, which no
    /// path may.
    pub fn path(&self, name: &str) -> (r: Option<String>)
        requires
            self.wf(),
        ensures
            r is Some <==> (self@.contains_key(name@) && valid_path(self@[name@])),
            r is Some ==> r->0@ == self@[name@],
    {
        match self.get(name) {
            None => None,
            Some(v) => {
                let n = v.as_str().unicode_len();
                if n == 0 {
                    return None;
                }
                let mut i: usize = 0;
                while i < n
                    invariant
                        0 <= i <= n,
                        n == v@.len(),
                        self@.contains_key(name@),
                        v@ == self@[name@],
                        forall|j: int| 0 <= j < i ==> #[trigger] v@[j] as u32 != 0,
                    decreases n - i,
                {
                    let c = v.as_str().get_char(i);
                    if c as u32 == 0 {
                        proof {
                            assert(v@[i as int] as u32 == 0);
                            assert(!valid_path(v@));
                        }
                        return None;
                    }
                    i += 1;
                }
                Some(v)
            },
        }
    }
}

/// Inserts the given pairs in order into a fresh mapping: each name once,
/// bound to its last value, names in first-occurrence order.
pub(crate) fn dedup_pairs(pairs: &Vec<(String, String)>) -> (r: Vec<(String, String)>)
    ensures
        pairs_view(r@) == env_from_pairs(pairs_view(pairs@)),
        unique_keys(pairs_view(r@)),
{
    let ghost pv = pairs_view(pairs@);
    let mut out: Vec<(String, String)> = Vec::new();
    let mut i: usize = 0;
    proof {
        assert(pv.take(0) =~~= Seq::<(Seq<char>, Seq<char>)>::empty());
        assert(pairs_view(out@) =~~= Seq::<(Seq<char>, Seq<char>)>::empty());
    }
    while i < pairs.len()
        invariant
            0 <= i <= pairs@.len(),
            pv == pairs_view(pairs@),
            pairs_view(out@) == env_from_pairs(pv.take(i as int)),
            unique_keys(pairs_view(out@)),
        decreases pairs@.len() - i,
    {
        let k = pairs[i].0.clone();
        let v = pairs[i].1.clone();
        proof {
            assert(pv[i as int] == (pairs@[i as int].0@, pairs@[i as int].1@));
        }
        let ghost pre = pairs_view(out@);
        insert_pair(&mut out, k, v);
        proof {
            lemma_env_insert_unique(pre, pv[i as int].0, pv[i as int].1);
            assert(pv.take(i + 1).drop_last() =~~= pv.take(i as int));
            assert(pv.take(i + 1).last() == pv[i as int]);
        }
        i += 1;
    }
    proof {
        assert(pv.take(i as int) =~~= pv);
    }
    out
}

/// Splitting a character sequence on `;` separators: the segments between
/// (and around) the separators, in order; always at least one segment.
pub open spec fn split_semis(s: Seq<char>) -> Seq<Seq<char>>
    decreases s.len(),
{
    if s.len() == 0 {
        seq![Seq::<char>::empty()]
    } else if s[0] == ';' {
        seq![Seq::<char>::empty()] + split_semis(s.drop_first())
    } else {
        let rest = split_semis(s.drop_first());
        seq![seq![s[0]] + rest[0]] + rest.drop_first()
    }
}

/// Splitting always yields at least one segment.
pub proof fn lemma_split_semis_nonempty(s: Seq<char>)
    ensures
        split_semis(s).len() >= 1,
    decreases s.len(),
{
    if s.len() > 0 {
        lemma_split_semis_nonempty(s.drop_first());
    }
}

/// A `;`-free run of `s` from `a` up to `b` (`b` the end or a separator) is
/// the first segment of the split of `s`'s tail from `a`.
pub proof fn lemma_split_semis_segment(s: Seq<char>, a: int, b: int)
    requires
        0 <= a <= b <= s.len(),
        forall|k: int| a <= k < b ==> (#[trigger] s[k]) != ';',
        b < s.len() ==> s[b] == ';',
    ensures
        b == s.len() ==> split_semis(s.skip(a)) == seq![s.subrange(a, b)],
        b < s.len() ==> split_semis(s.skip(a)) == seq![s.subrange(a, b)] + split_semis(
            s.skip(b + 1),
        ),
    decreases b - a,
{
    if a == b {
        if b == s.len() {
            assert(s.skip(a) =~= Seq::<char>::empty());
            assert(split_semis(s.skip(a)) =~~= seq![s.subrange(a, b)]);
        } else {
            assert(s.skip(a)[0] == s[b]);
            assert(s.skip(a).drop_first() =~= s.skip(b + 1));
            assert(split_semis(s.skip(a)) =~~= seq![s.subrange(a, b)] + split_semis(
                s.skip(b + 1),
            ));
        }
    } else {
        assert(s.skip(a)[0] == s[a]);
        assert(s[a] != ';');
        assert(s.skip(a).drop_first() =~= s.skip(a + 1));
        lemma_split_semis_segment(s, a + 1, b);
        let rest = split_semis(s.skip(a + 1));
        assert(rest[0] == s.subrange(a + 1, b));
        assert(seq![s[a]] + s.subrange(a + 1, b) =~= s.subrange(a, b));
        if b == s.len() {
            assert(split_semis(s.skip(a)) =~~= seq![s.subrange(a, b)]);
        } else {
            assert(split_semis(s.skip(a)) =~~= seq![s.subrange(a, b)] + split_semis(
                s.skip(b + 1),
            ));
        }
    }
}

/// The position of the first `=` in a cookie segment, if any.
pub open spec fn find_eq(seg: Seq<char>) -> Option<int>
    decreases seg.len(),
{
    if seg.len() == 0 {
        None
    } else if seg[0] == '=' {
        Some(0)
    } else {
        match find_eq(seg.drop_first()) {
            Some(i) => Some(i + 1),
            None => None,
        }
    }
}

/// `find_eq` finds exactly the first `=`.
pub proof fn lemma_find_eq(seg: Seq<char>)
    ensures
        match find_eq(seg) {
            Some(i) => 0 <= i < seg.len() && seg[i] == '=' && (forall|j: int|
                0 <= j < i ==> (#[trigger] seg[j]) != '='),
            None => forall|j: int| 0 <= j < seg.len() ==> (#[trigger] seg[j]) != '=',
        },
    decreases seg.len(),
{
    if seg.len() > 0 && seg[0] != '=' {
        let t = seg.drop_first();
        lemma_find_eq(t);
        if find_eq(t) is Some {
            let i = find_eq(t)->0;
            assert(t[i] == seg[i + 1]);
            assert forall|j: int| 0 <= j < i + 1 implies (#[trigger] seg[j]) != '=' by {
                if j > 0 {
                    assert(t[j - 1] == seg[j]);
                }
            }
        } else {
            assert forall|j: int| 0 <= j < seg.len() implies (#[trigger] seg[j]) != '=' by {
                if j > 0 {
                    assert(t[j - 1] == seg[j]);
                }
            }
        }
    }
}

/// The (name, value) of one cookie segment: the text before the first `=`,
/// less a single leading space, names the text after it (which may itself
/// hold `=` characters).
pub open spec fn cookie_pair(seg: Seq<char>) -> (Seq<char>, Seq<char>)
    recommends
        find_eq(seg) is Some,
{
    let i = find_eq(seg)->0;
    let rawname = seg.take(i);
    let name = if rawname.len() > 0 && rawname[0] == ' ' {
        rawname.drop_first()
    } else {
        rawname
    };
    (name, seg.subrange(i + 1, seg.len() as int))
}

/// The cookie pairs a `HTTP_COOKIE` value denotes, in order.
pub open spec fn cookie_pairs(s: Seq<char>) -> Seq<(Seq<char>, Seq<char>)> {
    split_semis(s).map_values(|seg: Seq<char>| cookie_pair(seg))
}

/// Well-formed cookie text: every `;`-separated segment holds an `=`.
pub open spec fn cookie_wf(s: Seq<char>) -> bool {
    forall|i: int|
        0 <= i < split_semis(s).len() ==> find_eq(#[trigger] split_semis(s)[i]) is Some
}

/// A usable filesystem path: non-empty and free of NUL characters.
pub open spec fn valid_path(s: Seq<char>) -> bool {
    s.len() > 0 && forall|i: int| 0 <= i < s.len() ==> #[trigger] s[i] as u32 != 0
}

/// What [`SCGIEnv::content_length`] returns: the `CONTENT_LENGTH` value as a
/// decimal number when present, parsable and representable, else 0.
pub open spec fn spec_content_length(m: Map<Seq<char>, Seq<char>>) -> int {
    if m.contains_key("CONTENT_LENGTH"@) {
        match parse_dec(m["CONTENT_LENGTH"@]) {
            Some(v) => if v <= usize::MAX { v } else { 0 },
            None => 0,
        }
    } else {
        0
    }
}

/// What [`SCGIEnv::port`] returns: the value under `name` as a decimal number
/// when present, parsable and at most 65535, else `None`.
pub open spec fn spec_port(m: Map<Seq<char>, Seq<char>>, name: Seq<char>) -> Option<u16> {
    if m.contains_key(name) {
        match parse_dec(m[name]) {
            Some(v) => if v <= 65535 { Some(v as u16) } else { None },
            None => None,
        }
    } else {
        None
    }
}

} // verus!
