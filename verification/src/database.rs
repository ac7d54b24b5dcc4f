//! The record store: an in-memory mapping of string keys to string values,
//! read from and written back to a one-entry-per-line text file in the
//! `key<TAB>value` format.
use vstd::prelude::*;

use crate::kvstore::KvError;
use crate::text::{contains_char, split, split_str, str_eq};

verus! {

/// The mathematical model of a store: its entries in order, each a key
/// paired with a value.
pub type Entries = Seq<(Seq<char>, Seq<char>)>;

/// The value behind the first entry whose key is `k`, if any.
pub open spec fn lookup(s: Entries, k: Seq<char>) -> Option<Seq<char>>
    decreases s.len(),
{
    if s.len() == 0 {
        None
    } else if s.first().0 == k {
        Some(s.first().1)
    } else {
        lookup(s.drop_first(), k)
    }
}

/// True when some entry has key `k`.
pub open spec fn has_key(s: Entries, k: Seq<char>) -> bool {
    exists|i: int| 0 <= i < s.len() && s[i].0 == k
}

/// True when no two entries share a key.
pub open spec fn unique_keys(s: Entries) -> bool {
    forall|i: int, j: int| 0 <= i < j < s.len() ==> s[i].0 != s[j].0
}

/// The entries after an unconditional write of `v` under `k`: the first
/// entry keyed `k` is replaced in place, or a fresh entry is appended.
pub open spec fn set_value(s: Entries, k: Seq<char>, v: Seq<char>) -> Entries
    decreases s.len(),
{
    if s.len() == 0 {
        seq![(k, v)]
    } else if s.first().0 == k {
        seq![(k, v)] + s.drop_first()
    } else {
        seq![s.first()] + set_value(s.drop_first(), k, v)
    }
}

/// The entries after an edit: a plain write, or, in append mode on an
/// existing key, a write of the old value with `v` concatenated after it.
pub open spec fn edited(s: Entries, k: Seq<char>, v: Seq<char>, append: bool) -> Entries {
    if append {
        match lookup(s, k) {
            Some(prior) => set_value(s, k, prior + v),
            None => set_value(s, k, v),
        }
    } else {
        set_value(s, k, v)
    }
}

pub proof fn lemma_lookup_has_key(s: Entries, k: Seq<char>)
    ensures
        (lookup(s, k) is Some) == has_key(s, k),
    decreases s.len(),
{
    if s.len() != 0 {
        lemma_lookup_has_key(s.drop_first(), k);
        if s.first().0 != k {
            assert(has_key(s.drop_first(), k) ==> has_key(s, k)) by {
                if has_key(s.drop_first(), k) {
                    let i = choose|i: int|
                        0 <= i < s.drop_first().len() && s.drop_first()[i].0 == k;
                    assert(s[i + 1].0 == k);
                }
            }
            assert(has_key(s, k) ==> has_key(s.drop_first(), k)) by {
                if has_key(s, k) {
                    let i = choose|i: int| 0 <= i < s.len() && s[i].0 == k;
                    assert(s.drop_first()[i - 1].0 == k);
                }
            }
        }
    }
}

/// Looking a key up finds the value at its first occurrence.
pub proof fn lemma_lookup_first_match(s: Entries, k: Seq<char>, j: int)
    requires
        0 <= j < s.len(),
        s[j].0 == k,
        forall|i: int| 0 <= i < j ==> s[i].0 != k,
    ensures
        lookup(s, k) == Some(s[j].1),
    decreases s.len(),
{
    if j > 0 {
        lemma_lookup_first_match(s.drop_first(), k, j - 1);
    }
}

/// A write to a key that occurs first at index `j` replaces that one entry.
pub proof fn lemma_set_value_found(s: Entries, k: Seq<char>, v: Seq<char>, j: int)
    requires
        0 <= j < s.len(),
        s[j].0 == k,
        forall|i: int| 0 <= i < j ==> s[i].0 != k,
    ensures
        set_value(s, k, v) == s.update(j, (k, v)),
    decreases s.len(),
{
    if j == 0 {
        assert(seq![(k, v)] + s.drop_first() =~= s.update(0, (k, v)));
    } else {
        lemma_set_value_found(s.drop_first(), k, v, j - 1);
        assert(s.drop_first().update(j - 1, (k, v)) =~= s.update(j, (k, v)).drop_first());
        assert(seq![s.first()] + s.drop_first().update(j - 1, (k, v)) =~= s.update(j, (k, v)));
    }
}

/// A write to a key that no entry has appends a fresh entry.
pub proof fn lemma_set_value_absent(s: Entries, k: Seq<char>, v: Seq<char>)
    requires
        forall|i: int| 0 <= i < s.len() ==> s[i].0 != k,
    ensures
        set_value(s, k, v) == s.push((k, v)),
    decreases s.len(),
{
    if s.len() == 0 {
        assert(seq![(k, v)] =~= s.push((k, v)));
    } else {
        assert(forall|i: int|
            0 <= i < s.drop_first().len() ==> s.drop_first()[i].0 != k) by {
            assert(forall|i: int|
                0 <= i < s.drop_first().len() ==> s.drop_first()[i] == s[i + 1]);
        }
        lemma_set_value_absent(s.drop_first(), k, v);
        assert(seq![s.first()] + s.drop_first().push((k, v)) =~= s.push((k, v)));
    }
}

/// The line an entry becomes on disk: key, tab, value, newline.
pub open spec fn pair_line(p: (Seq<char>, Seq<char>)) -> Seq<char> {
    p.0 + seq!['\t'] + p.1 + seq!['\n']
}

/// The full on-disk text of an entry list: one line per entry, in order.
pub open spec fn rendered(s: Entries) -> Seq<char>
    decreases s.len(),
{
    if s.len() == 0 {
        Seq::empty()
    } else {
        pair_line(s.first()) + rendered(s.drop_first())
    }
}

pub proof fn lemma_rendered_push(s: Entries, p: (Seq<char>, Seq<char>))
    ensures
        rendered(s.push(p)) == rendered(s) + pair_line(p),
    decreases s.len(),
{
    if s.len() == 0 {
        assert(s.push(p).drop_first() =~= Seq::<(Seq<char>, Seq<char>)>::empty());
        assert(rendered(Seq::<(Seq<char>, Seq<char>)>::empty()) == Seq::<char>::empty());
        assert(rendered(s.push(p)) =~= rendered(s) + pair_line(p));
    } else {
        lemma_rendered_push(s.drop_first(), p);
        assert(s.push(p).drop_first() =~= s.drop_first().push(p));
        assert(s.push(p).first() == s.first());
        assert(pair_line(s.first()) + (rendered(s.drop_first()) + pair_line(p)) =~= (pair_line(
            s.first(),
        ) + rendered(s.drop_first())) + pair_line(p));
    }
}

/// One step of loading: the text's line segments are folded, in order, into
/// an accumulated entry list. An empty segment is skipped; any other segment
/// must hold exactly one tab, and loading stops at the first that does not,
/// reporting how many tabs it held.
pub open spec fn parse_fields(acc: Entries, segs: Seq<Seq<char>>) -> Result<Entries, nat>
    decreases segs.len(),
{
    if segs.len() == 0 {
        Ok(acc)
    } else if segs.first().len() == 0 {
        parse_fields(acc, segs.drop_first())
    } else {
        let fields = split(segs.first(), '\t');
        if fields.len() != 2 {
            Err((fields.len() - 1) as nat)
        } else {
            parse_fields(set_value(acc, fields[0], fields[1]), segs.drop_first())
        }
    }
}

/// What loading a whole file yields: its entries, or the tab count of the
/// first malformed line.
pub open spec fn parse(text: Seq<char>) -> Result<Entries, nat> {
    parse_fields(Seq::empty(), split(text, '\n'))
}

/// A write is visible: looking the key up afterwards finds the new value.
pub proof fn lemma_lookup_set_value(s: Entries, k: Seq<char>, v: Seq<char>)
    ensures
        lookup(set_value(s, k, v), k) == Some(v),
    decreases s.len(),
{
    if s.len() == 0 {
        assert(seq![(k, v)].first() == (k, v));
    } else if s.first().0 == k {
        assert((seq![(k, v)] + s.drop_first()).first() == (k, v));
    } else {
        lemma_lookup_set_value(s.drop_first(), k, v);
        let t = seq![s.first()] + set_value(s.drop_first(), k, v);
        assert(t.first() == s.first());
        assert(t.drop_first() =~= set_value(s.drop_first(), k, v));
    }
}

/// A write leaves every other key's value alone.
pub proof fn lemma_lookup_set_value_other(s: Entries, k: Seq<char>, v: Seq<char>, k2: Seq<char>)
    requires
        k2 != k,
    ensures
        lookup(set_value(s, k, v), k2) == lookup(s, k2),
    decreases s.len(),
{
    if s.len() == 0 {
        assert(seq![(k, v)].first() == (k, v));
        assert(seq![(k, v)].drop_first() =~= Seq::<(Seq<char>, Seq<char>)>::empty());
        assert(lookup(Seq::<(Seq<char>, Seq<char>)>::empty(), k2) is None);
    } else if s.first().0 == k {
        let t = seq![(k, v)] + s.drop_first();
        assert(t.first() == (k, v));
        assert(t.drop_first() =~= s.drop_first());
    } else {
        lemma_lookup_set_value_other(s.drop_first(), k, v, k2);
        let t = seq![s.first()] + set_value(s.drop_first(), k, v);
        assert(t.first() == s.first());
        assert(t.drop_first() =~= set_value(s.drop_first(), k, v));
    }
}

/// An overwrite always makes the key read back as the new value; an append
/// on an existing key reads back as the old value with the new one
/// concatenated after it, and on an absent key as a plain write. Every
/// other key is untouched either way.
pub proof fn lemma_edit_then_lookup(s: Entries, k: Seq<char>, v: Seq<char>, append: bool)
    ensures
        !append ==> lookup(edited(s, k, v, append), k) == Some(v),
        append ==> lookup(edited(s, k, v, append), k) == Some(
            match lookup(s, k) {
                Some(prior) => prior + v,
                None => v,
            },
        ),
        forall|k2: Seq<char>| k2 != k ==> lookup(edited(s, k, v, append), k2) == lookup(s, k2),
{
    if append {
        match lookup(s, k) {
            Some(prior) => lemma_lookup_set_value(s, k, prior + v),
            None => lemma_lookup_set_value(s, k, v),
        }
    } else {
        lemma_lookup_set_value(s, k, v);
    }
    assert forall|k2: Seq<char>| k2 != k implies lookup(edited(s, k, v, append), k2) == lookup(
        s,
        k2,
    ) by {
        if append {
            match lookup(s, k) {
                Some(prior) => lemma_lookup_set_value_other(s, k, prior + v, k2),
                None => lemma_lookup_set_value_other(s, k, v, k2),
            }
        } else {
            lemma_lookup_set_value_other(s, k, v, k2);
        }
    }
}

/// Reading is pure: two lookups of the same key in the same entries agree.
/// Together with `Database::view`, whose result is exactly this lookup and
/// which leaves the store untouched, this is idempotence of viewing.
pub proof fn lemma_lookup_idempotent(s: Entries, k: Seq<char>)
    ensures
        lookup(s, k) == lookup(s, k),
{
}

/// True when no key or value holds a tab or newline, so that the on-disk
/// line format can carry them.
pub open spec fn delim_free(s: Entries) -> bool {
    forall|i: int| #![trigger s[i]]
        0 <= i < s.len() ==> !contains_char(s[i].0, '\t') && !contains_char(s[i].1, '\t')
            && !contains_char(s[i].0, '\n') && !contains_char(s[i].1, '\n')
}

proof fn lemma_parse_rendered(acc: Entries, s: Entries)
    requires
        unique_keys(acc + s),
        delim_free(s),
    ensures
        parse_fields(acc, split(rendered(s), '\n')) == Ok::<Entries, nat>(acc + s),
    decreases s.len(),
{
    if s.len() == 0 {
        assert(split(rendered(s), '\n') == seq![Seq::<char>::empty()]);
        assert(seq![Seq::<char>::empty()].first().len() == 0);
        assert(seq![Seq::<char>::empty()].drop_first() =~= Seq::<Seq<char>>::empty());
        assert(parse_fields(acc, Seq::<Seq<char>>::empty()) == Ok::<Entries, nat>(acc));
        assert(parse_fields(acc, seq![Seq::<char>::empty()]) == Ok::<Entries, nat>(acc));
        assert(acc + s =~= acc);
    } else {
        let k = s.first().0;
        let v = s.first().1;
        let x = k + seq!['\t'] + v;
        assert(!contains_char(x, '\n')) by {
            crate::text::lemma_contains_concat(k + seq!['\t'], v, '\n');
            crate::text::lemma_contains_concat(k, seq!['\t'], '\n');
            assert(!contains_char(seq!['\t'], '\n')) by {
                if contains_char(seq!['\t'], '\n') {
                    let i = choose|i: int|
                        0 <= i < seq!['\t'].len() && seq!['\t'][i] == '\n';
                    assert(seq!['\t'][0] == '\t');
                }
            }
            assert(s[0] == s.first());
        }
        assert(rendered(s) =~= x + seq!['\n'] + rendered(s.drop_first()));
        crate::text::lemma_split_concat(x, rendered(s.drop_first()), '\n');
        let segs = seq![x] + split(rendered(s.drop_first()), '\n');
        assert(segs.first() == x);
        assert(x.len() > 0);
        assert(!contains_char(k, '\t') && !contains_char(v, '\t')) by {
            assert(s[0] == s.first());
        }
        assert(split(x, '\t') == seq![k, v]) by {
            crate::text::lemma_split_concat(k, v, '\t');
            crate::text::lemma_split_no_delim(v, '\t');
            assert(seq![k] + seq![v] =~= seq![k, v]);
        }
        assert(forall|i: int| 0 <= i < acc.len() ==> (acc + s)[i] == acc[i]);
        assert((acc + s)[acc.len() as int] == s.first());
        assert(forall|i: int| 0 <= i < acc.len() ==> acc[i].0 != k);
        lemma_set_value_absent(acc, k, v);
        let acc2 = acc.push((k, v));
        assert(acc2 =~= acc + seq![(k, v)]);
        assert(acc2 + s.drop_first() =~= acc + s);
        assert(delim_free(s.drop_first())) by {
            assert(forall|i: int|
                0 <= i < s.drop_first().len() ==> s.drop_first()[i] == s[i + 1]);
        }
        lemma_parse_rendered(acc2, s.drop_first());
        assert(segs.drop_first() =~= split(rendered(s.drop_first()), '\n'));
        assert(parse_fields(acc, segs) == parse_fields(acc2, segs.drop_first()));
    }
}

/// Round trip: writing out a well-formed, delimiter-free entry list and
/// loading the text back yields exactly the same entries.
pub proof fn lemma_round_trip(s: Entries)
    requires
        unique_keys(s),
        delim_free(s),
    ensures
        parse(rendered(s)) == Ok::<Entries, nat>(s),
{
    assert(Seq::<(Seq<char>, Seq<char>)>::empty() + s =~= s);
    lemma_parse_rendered(Seq::empty(), s);
}

/// True when every line segment is empty or splits into exactly two fields
/// on the tab character.
pub open spec fn well_formed_lines(segs: Seq<Seq<char>>) -> bool {
    forall|i: int| #![trigger segs[i]]
        0 <= i < segs.len() ==> segs[i].len() == 0 || split(segs[i], '\t').len() == 2
}

proof fn lemma_parse_fields_ok(acc: Entries, segs: Seq<Seq<char>>)
    ensures
        (parse_fields(acc, segs) is Ok) == well_formed_lines(segs),
    decreases segs.len(),
{
    if segs.len() == 0 {
        assert(well_formed_lines(segs));
    } else {
        let tail = segs.drop_first();
        assert(forall|i: int| #![trigger tail[i]] 0 <= i < tail.len() ==> tail[i] == segs[i + 1]);
        assert(segs[0] == segs.first());
        if segs.first().len() == 0 || split(segs.first(), '\t').len() == 2 {
            if segs.first().len() == 0 {
                lemma_parse_fields_ok(acc, tail);
            } else {
                let fields = split(segs.first(), '\t');
                lemma_parse_fields_ok(set_value(acc, fields[0], fields[1]), tail);
            }
            if well_formed_lines(tail) {
                assert forall|i: int| #![trigger segs[i]]
                    0 <= i < segs.len() implies segs[i].len() == 0 || split(segs[i], '\t').len()
                    == 2 by {
                    if i > 0 {
                        assert(segs[i] == tail[i - 1]);
                    }
                }
                assert(well_formed_lines(segs));
            } else {
                let i = choose|i: int|
                    0 <= i < tail.len() && !(tail[i].len() == 0 || split(tail[i], '\t').len()
                        == 2);
                assert(segs[i + 1] == tail[i]);
                assert(!well_formed_lines(segs));
            }
        } else {
            assert(!well_formed_lines(segs));
        }
    }
}

/// Loading succeeds exactly when every non-empty line of the text holds
/// exactly one tab.
pub proof fn lemma_parse_ok(text: Seq<char>)
    ensures
        (parse(text) is Ok) == well_formed_lines(split(text, '\n')),
{
    lemma_parse_fields_ok(Seq::empty(), split(text, '\n'));
}

/// The record store: the path of its file and the mapping loaded from it.
#[derive(Debug)]
pub struct Database {
    filename: String,
    pairs: Vec<(String, String)>,
}

/// Writes `v` under `k` into an entry list: replaces the value of the first
/// entry keyed `k`, or appends a fresh entry.
fn set_pair(pairs: &mut Vec<(String, String)>, k: String, v: String)
    requires
        unique_keys(old(pairs).deep_view()),
    ensures
        final(pairs).deep_view() == set_value(old(pairs).deep_view(), k@, v@),
        unique_keys(final(pairs).deep_view()),
{
    let ghost s = pairs.deep_view();
    let n = pairs.len();
    let mut j: usize = 0;
    while j < n
        invariant
            n == pairs.deep_view().len(),
            j <= n,
            pairs.deep_view() == s,
            old(pairs).deep_view() == s,
            unique_keys(s),
            forall|i: int| 0 <= i < j ==> s[i].0 != k@,
        decreases n - j,
    {
        if str_eq(pairs[j].0.as_str(), k.as_str()) {
            let ghost kview = k@;
            let ghost vview = v@;
            let ghost before = pairs@;
            pairs[j] = (k, v);
            proof {
                assert(pairs@[j as int].deep_view() == (kview, vview));
                lemma_set_value_found(s, kview, vview, j as int);
                assert(pairs.deep_view() =~= s.update(j as int, (kview, vview)));
                let after = pairs.deep_view();
                assert forall|a: int, b: int| 0 <= a < b < after.len() implies after[a].0
                    != after[b].0 by {
                    assert(s[a].0 != s[b].0);
                    assert(after[a].0 == s.update(j as int, (kview, vview))[a].0);
                    assert(after[b].0 == s.update(j as int, (kview, vview))[b].0);
                }
            }
            return ;
        }
        j = j + 1;
    }
    proof {
        lemma_set_value_absent(s, k@, v@);
    }
    let ghost kview = k@;
    let ghost vview = v@;
    pairs.push((k, v));
    proof {
        assert(pairs.deep_view() =~= s.push((kview, vview)));
        assert forall|a: int, b: int|
            0 <= a < b < pairs.deep_view().len() implies pairs.deep_view()[a].0
            != pairs.deep_view()[b].0 by {
            if b < s.len() {
                assert(s[a].0 != s[b].0);
            } else {
                assert(pairs.deep_view()[b] == (kview, vview));
                assert(s[a].0 != kview);
            }
        }
    }
}

impl Database {
    /// Builds a store from the location of its file and the text read from
    /// it. Each non-empty line must hold exactly one tab; on the first line
    /// that does not, the whole load fails, reporting how many tabs that
    /// line held. A later line with a duplicate key overwrites the earlier
    /// one in place.
    pub fn new(path: &str, contents: &str) -> (r: Result<Database, KvError>)
        ensures
            match r {
                Ok(db) => {
                    &&& parse(contents@) == Ok::<Entries, nat>(db.entries())
                    &&& db.wf()
                    &&& db.path() == path@
                },
                Err(e) => match e {
                    KvError::InvalidFormat(n) => parse(contents@) == Err::<Entries, nat>(n as nat),
                    _ => false,
                },
            },
    {
        let segs = split_str(contents, '\n');
        let mut pairs: Vec<(String, String)> = Vec::new();
        let n = segs.len();
        let mut i: usize = 0;
        proof {
            assert(segs.deep_view().skip(0) =~= segs.deep_view());
            assert(pairs.deep_view() =~= Seq::<(Seq<char>, Seq<char>)>::empty());
        }
        while i < n
            invariant
                n == segs.deep_view().len(),
                i <= n,
                segs.deep_view() == split(contents@, '\n'),
                unique_keys(pairs.deep_view()),
                parse_fields(pairs.deep_view(), segs.deep_view().skip(i as int)) == parse(
                    contents@,
                ),
            decreases n - i,
        {
            let ghost rem = segs.deep_view().skip(i as int);
            proof {
                assert(rem.first() == segs.deep_view()[i as int]);
                assert(rem.drop_first() =~= segs.deep_view().skip(i + 1 as int));
            }
            if !segs[i].as_str().is_empty() {
                let mut fields = split_str(segs[i].as_str(), '\t');
                if fields.len() != 2 {
                    proof {
                        assert(parse(contents@) == Err::<Entries, nat>(
                            (fields.deep_view().len() - 1) as nat,
                        ));
                    }
                    return Err(KvError::InvalidFormat(fields.len() - 1));
                }
                let v = fields.pop().unwrap();
                let k = fields.pop().unwrap();
                proof {
                    assert(k@ == split(rem.first(), '\t')[0]);
                    assert(v@ == split(rem.first(), '\t')[1]);
                }
                set_pair(&mut pairs, k, v);
            }
            i = i + 1;
        }
        proof {
            assert(segs.deep_view().skip(n as int) =~= Seq::<Seq<char>>::empty());
        }
        Ok(Database { filename: String::from_str(path), pairs })
    }

    /// The entries the store holds, in order.
    pub closed spec fn entries(&self) -> Entries {
        self.pairs.deep_view()
    }

    /// The location of the store's file.
    pub closed spec fn path(&self) -> Seq<char> {
        self.filename@
    }

    /// Well-formedness: no two entries share a key.
    pub open spec fn wf(&self) -> bool {
        unique_keys(self.entries())
    }

    /// Adds or edits a key with the given value. In append mode an existing
    /// value keeps its place and `value` is concatenated after it, with no
    /// delimiter in between; otherwise the value is overwritten. Purely an
    /// in-memory mutation.
    pub fn edit(&mut self, key: &str, value: &str, append: bool)
        requires
            old(self).wf(),
        ensures
            final(self).wf(),
            final(self).entries() == edited(old(self).entries(), key@, value@, append),
            final(self).path() == old(self).path(),
    {
        let new_value = if append {
            match self.view(key) {
                Some(prior) => {
                    let mut joined = prior.clone();
                    joined.append(value);
                    joined
                },
                None => String::from_str(value),
            }
        } else {
            String::from_str(value)
        };
        set_pair(&mut self.pairs, String::from_str(key), new_value);
    }

    /// The value behind a requested key, if it exists. Read-only.
    pub fn view(&self, key: &str) -> (r: Option<&String>)
        ensures
            match r {
                Some(v) => lookup(self.entries(), key@) == Some(v@),
                None => lookup(self.entries(), key@) is None,
            },
    {
        let n = self.pairs.len();
        let mut j: usize = 0;
        while j < n
            invariant
                n == self.entries().len(),
                j <= n,
                forall|i: int| 0 <= i < j ==> self.entries()[i].0 != key@,
            decreases n - j,
        {
            if str_eq(self.pairs[j].0.as_str(), key) {
                proof {
                    lemma_lookup_first_match(self.entries(), key@, j as int);
                }
                return Some(&self.pairs[j].1);
            }
            j = j + 1;
        }
        proof {
            lemma_lookup_has_key(self.entries(), key@);
        }
        None
    }

    /// The text to write back to the store's file: the whole mapping,
    /// one `key<TAB>value` line per entry, every line newline-terminated.
    pub fn serialize(&self) -> (r: String)
        ensures
            r@ == rendered(self.entries()),
    {
        let mut out = String::new();
        let n = self.pairs.len();
        let mut i: usize = 0;
        proof {
            assert(self.entries().take(0) =~= Seq::<(Seq<char>, Seq<char>)>::empty());
        }
        while i < n
            invariant
                n == self.entries().len(),
                i <= n,
                out@ == rendered(self.entries().take(i as int)),
            decreases n - i,
        {
            out.append(self.pairs[i].0.as_str());
            out.append("\t");
            out.append(self.pairs[i].1.as_str());
            out.append("\n");
            proof {
                reveal_strlit("\t");
                reveal_strlit("\n");
                assert("\t"@ =~= seq!['\t']);
                assert("\n"@ =~= seq!['\n']);
                lemma_rendered_push(self.entries().take(i as int), self.entries()[i as int]);
                assert(self.entries().take(i as int).push(self.entries()[i as int])
                    =~= self.entries().take(i + 1 as int));
                assert(out@ =~= rendered(self.entries().take(i + 1 as int)));
            }
            i = i + 1;
        }
        proof {
            assert(self.entries().take(n as int) =~= self.entries());
        }
        out
    }

    /// The keys of all entries, in the order the store holds them.
    pub fn get_keys(&self) -> (r: Vec<String>)
        ensures
            r.deep_view() == self.entries().map_values(|p: (Seq<char>, Seq<char>)| p.0),
    {
        let ghost keys = self.entries().map_values(|p: (Seq<char>, Seq<char>)| p.0);
        let n = self.pairs.len();
        let mut r: Vec<String> = Vec::new();
        let mut j: usize = 0;
        while j < n
            invariant
                n == self.entries().len(),
                j <= n,
                keys == self.entries().map_values(|p: (Seq<char>, Seq<char>)| p.0),
                r.deep_view() == keys.take(j as int),
        decreases n - j,
        {
            let ghost prev = r.deep_view();
            r.push(self.pairs[j].0.clone());
            proof {
                assert(r.deep_view() =~= prev.push(self.entries()[j as int].0));
                assert(r.deep_view() =~= keys.take(j + 1 as int));
            }
            j = j + 1;
        }
        proof {
            assert(keys.take(n as int) =~= keys);
        }
        r
    }
}

} // verus!
