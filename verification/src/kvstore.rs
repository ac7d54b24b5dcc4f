//! The command dispatcher and the environment export builder: one parsed
//! invocation, the loaded database and a snapshot of the process environment
//! decide which operation runs and what text it produces.
use vstd::prelude::*;

use crate::cli::Cli;
use crate::database::{
    edited, lemma_lookup_first_match, lookup, Database, Entries,
};
use crate::text::{
    decimal, join, join_strings, pop_char, push_char, push_decimal, split, split_str, str_eq,
    contains_string,
};

verus! {

/// Every way an invocation can fail.
#[derive(Debug, PartialEq, Eq)]
pub enum KvError {
    /// A line of the database file did not split into exactly two fields on
    /// the tab character; carries the number of tabs actually found.
    InvalidFormat(usize),
    /// The database file is not valid text.
    EncodingError,
    /// Reading or writing the database file failed; carries the reported
    /// reason.
    IoError(String),
    /// A third positional argument was supplied; carries it.
    UnknownArg(String),
}

/// What an error says to the user.
pub open spec fn message_of(e: KvError) -> Seq<char> {
    match e {
        KvError::InvalidFormat(n) => "Invalid kv file- found "@ + decimal(n as nat)
            + " tab(s) on a single line (expecting 1)"@,
        KvError::EncodingError => "Invalid kv file- contents are not valid text"@,
        KvError::IoError(m) => m@,
        KvError::UnknownArg(a) => "Unknown arg \""@ + a@ + "\""@,
    }
}

impl KvError {
    /// The error's message, as printed.
    pub fn message(&self) -> (r: String)
        ensures
            r@ == message_of(*self),
    {
        match self {
            KvError::InvalidFormat(n) => {
                let mut out = String::from_str("Invalid kv file- found ");
                push_decimal(&mut out, *n);
                out.append(" tab(s) on a single line (expecting 1)");
                out
            },
            KvError::EncodingError => String::from_str(
                "Invalid kv file- contents are not valid text",
            ),
            KvError::IoError(m) => m.clone(),
            KvError::UnknownArg(a) => {
                let mut out = String::from_str("Unknown arg \"");
                out.append(a.as_str());
                out.append("\"");
                out
            },
        }
    }
}

/// The stored path segments not already present among the existing ones,
/// in order, duplicates on the stored side kept.
pub open spec fn fresh_segments(stored: Seq<Seq<char>>, existing: Seq<Seq<char>>) -> Seq<
    Seq<char>,
>
    decreases stored.len(),
{
    if stored.len() == 0 {
        Seq::empty()
    } else {
        (if existing.contains(stored.first()) {
            Seq::<Seq<char>>::empty()
        } else {
            seq![stored.first()]
        }) + fresh_segments(stored.drop_first(), existing)
    }
}

pub proof fn lemma_fresh_segments_push(stored: Seq<Seq<char>>, existing: Seq<Seq<char>>, x: Seq<char>)
    ensures
        existing.contains(x) ==> fresh_segments(stored.push(x), existing) == fresh_segments(
            stored,
            existing,
        ),
        !existing.contains(x) ==> fresh_segments(stored.push(x), existing) == fresh_segments(
            stored,
            existing,
        ).push(x),
    decreases stored.len(),
{
    if stored.len() == 0 {
        assert(stored.push(x).first() == x);
        assert(stored.push(x).drop_first() =~= Seq::<Seq<char>>::empty());
        assert(fresh_segments(Seq::<Seq<char>>::empty(), existing) == Seq::<Seq<char>>::empty());
        if existing.contains(x) {
            assert(fresh_segments(stored.push(x), existing) =~= fresh_segments(stored, existing));
        } else {
            assert(fresh_segments(stored.push(x), existing) =~= fresh_segments(
                stored,
                existing,
            ).push(x));
        }
    } else {
        lemma_fresh_segments_push(stored.drop_first(), existing, x);
        assert(stored.push(x).first() == stored.first());
        assert(stored.push(x).drop_first() =~= stored.drop_first().push(x));
        if existing.contains(x) {
            assert(fresh_segments(stored.push(x), existing) =~= fresh_segments(stored, existing));
        } else {
            assert(fresh_segments(stored.push(x), existing) =~= fresh_segments(
                stored,
                existing,
            ).push(x));
        }
    }
}

/// The assignment text one store entry contributes in export mode.
/// `existing` is the value the process environment already has for the key.
pub open spec fn export_one(
    k: Seq<char>,
    v: Seq<char>,
    existing: Option<Seq<char>>,
    sep: char,
) -> Seq<char> {
    match existing {
        None => k + seq!['='] + v + seq![' '],
        Some(e) => if k == "PATH"@ {
            let fresh = fresh_segments(split(v, sep), split(e, sep));
            if fresh.len() == 0 {
                Seq::empty()
            } else {
                k + seq!['='] + e + seq![sep] + join(fresh, sep) + seq![' ']
            }
        } else {
            Seq::empty()
        },
    }
}

/// The whole export-mode output: each entry's contribution, in store order.
pub open spec fn export_all(s: Entries, env: Entries, sep: char) -> Seq<char>
    decreases s.len(),
{
    if s.len() == 0 {
        Seq::empty()
    } else {
        export_one(s.first().0, s.first().1, lookup(env, s.first().0), sep) + export_all(
            s.drop_first(),
            env,
            sep,
        )
    }
}

pub proof fn lemma_export_all_push(s: Entries, env: Entries, sep: char, p: (Seq<char>, Seq<char>))
    ensures
        export_all(s.push(p), env, sep) == export_all(s, env, sep) + export_one(
            p.0,
            p.1,
            lookup(env, p.0),
            sep,
        ),
    decreases s.len(),
{
    if s.len() == 0 {
        assert(s.push(p).first() == p);
        assert(s.push(p).drop_first() =~= Seq::<(Seq<char>, Seq<char>)>::empty());
        assert(export_all(Seq::<(Seq<char>, Seq<char>)>::empty(), env, sep) == Seq::<
            char,
        >::empty());
        assert(export_all(s.push(p), env, sep) =~= export_all(s, env, sep) + export_one(
            p.0,
            p.1,
            lookup(env, p.0),
            sep,
        ));
    } else {
        lemma_export_all_push(s.drop_first(), env, sep, p);
        assert(s.push(p).first() == s.first());
        assert(s.push(p).drop_first() =~= s.drop_first().push(p));
        assert(export_all(s.push(p), env, sep) =~= export_all(s, env, sep) + export_one(
            p.0,
            p.1,
            lookup(env, p.0),
            sep,
        ));
    }
}

/// Looks a key up in an association list, such as the environment snapshot.
fn assoc_lookup<'a>(pairs: &'a Vec<(String, String)>, key: &str) -> (r: Option<&'a String>)
    ensures
        match r {
            Some(v) => lookup(pairs.deep_view(), key@) == Some(v@),
            None => lookup(pairs.deep_view(), key@) is None,
        },
{
    let n = pairs.len();
    let mut j: usize = 0;
    while j < n
        invariant
            n == pairs.deep_view().len(),
            j <= n,
            forall|i: int| 0 <= i < j ==> pairs.deep_view()[i].0 != key@,
        decreases n - j,
    {
        if str_eq(pairs[j].0.as_str(), key) {
            proof {
                lemma_lookup_first_match(pairs.deep_view(), key@, j as int);
            }
            return Some(&pairs[j].1);
        }
        j = j + 1;
    }
    proof {
        crate::database::lemma_lookup_has_key(pairs.deep_view(), key@);
    }
    None
}

/// The width of the widest key, in characters.
pub open spec fn max_key_len(s: Entries) -> nat
    decreases s.len(),
{
    if s.len() == 0 {
        0
    } else {
        let m = max_key_len(s.drop_last());
        if s.last().0.len() > m {
            s.last().0.len()
        } else {
            m
        }
    }
}

pub proof fn lemma_max_key_len_ge(s: Entries, i: int)
    requires
        0 <= i < s.len(),
    ensures
        s[i].0.len() <= max_key_len(s),
    decreases s.len(),
{
    if i < s.len() - 1 {
        lemma_max_key_len_ge(s.drop_last(), i);
        assert(s.drop_last()[i] == s[i]);
    }
}

/// A run of `n` spaces.
pub open spec fn spaces(n: nat) -> Seq<char>
    decreases n,
{
    if n == 0 {
        Seq::empty()
    } else {
        spaces((n - 1) as nat).push(' ')
    }
}

pub proof fn lemma_spaces_add(a: nat, b: nat)
    ensures
        spaces(a + b) == spaces(a) + spaces(b),
    decreases b,
{
    if b == 0 {
        assert(spaces(a) + spaces(0) =~= spaces(a));
    } else {
        lemma_spaces_add(a, (b - 1) as nat);
        assert(spaces(a) + spaces((b - 1) as nat).push(' ') =~= (spaces(a) + spaces(
            (b - 1) as nat,
        )).push(' '));
    }
}

/// A run of `n` spaces, built.
fn make_spaces(n: usize) -> (r: String)
    ensures
        r@ == spaces(n as nat),
{
    let mut out = String::new();
    let mut i: usize = 0;
    while i < n
        invariant
            i <= n,
            out@ == spaces(i as nat),
        decreases n - i,
    {
        push_char(&mut out, ' ');
        i = i + 1;
    }
    out
}

/// The line one entry contributes to the full listing: nothing when its
/// value is empty, otherwise the key, padding out to the widest key plus a
/// four-space gutter, the value, and a newline.
pub open spec fn listing_line(p: (Seq<char>, Seq<char>), w: nat) -> Seq<char> {
    if p.1.len() == 0 {
        Seq::empty()
    } else {
        p.0 + spaces((w - p.0.len() + 4) as nat) + p.1 + seq!['\n']
    }
}

/// Every entry's listing line, in store order, at width `w`.
pub open spec fn listing_lines(s: Entries, w: nat) -> Seq<char>
    decreases s.len(),
{
    if s.len() == 0 {
        Seq::empty()
    } else {
        listing_line(s.first(), w) + listing_lines(s.drop_first(), w)
    }
}

pub proof fn lemma_listing_lines_push(s: Entries, w: nat, p: (Seq<char>, Seq<char>))
    ensures
        listing_lines(s.push(p), w) == listing_lines(s, w) + listing_line(p, w),
    decreases s.len(),
{
    if s.len() == 0 {
        assert(s.push(p).first() == p);
        assert(s.push(p).drop_first() =~= Seq::<(Seq<char>, Seq<char>)>::empty());
        assert(listing_lines(Seq::<(Seq<char>, Seq<char>)>::empty(), w) == Seq::<char>::empty());
        assert(listing_lines(s.push(p), w) =~= listing_lines(s, w) + listing_line(p, w));
    } else {
        lemma_listing_lines_push(s.drop_first(), w, p);
        assert(s.push(p).first() == s.first());
        assert(s.push(p).drop_first() =~= s.drop_first().push(p));
        assert(listing_lines(s.push(p), w) =~= listing_lines(s, w) + listing_line(p, w));
    }
}

/// The full listing: every non-empty-valued entry's aligned line, with the
/// trailing newline trimmed when there is anything at all.
pub open spec fn listing(s: Entries) -> Seq<char> {
    let l = listing_lines(s, max_key_len(s));
    if l.len() == 0 {
        l
    } else {
        l.drop_last()
    }
}

/// What one invocation produces: the text for the user, and whether the
/// store changed in memory and must be written back to its file.
#[derive(Debug)]
pub struct RunOutput {
    pub message: String,
    pub save_needed: bool,
}

/// One invocation against a loaded store: the positional arguments, the
/// flags, a snapshot of the process environment, and the platform's
/// path-list separator.
#[derive(Debug)]
pub struct KvStore {
    pub db: Database,
    pub key: Option<String>,
    pub value: Option<String>,
    pub init: bool,
    pub help: bool,
    pub version: bool,
    pub append: bool,
    pub env: Vec<(String, String)>,
    pub sep: char,
}

impl KvStore {
    /// Combines a loaded store with a split invocation: the first positional
    /// argument is the key, the second the value, and any third is refused.
    /// The environment snapshot and separator stand in for what the process
    /// environment would answer.
    pub fn new(db: Database, cli: Cli, env: Vec<(String, String)>, sep: char) -> (r: Result<
        KvStore,
        KvError,
    >)
        ensures
            ({
                let positional = cli.args.deep_view();
                match r {
                    Ok(kv) => {
                        &&& positional.len() <= 2
                        &&& kv.db == db
                        &&& (positional.len() >= 1 ==> kv.key is Some && kv.key->0@
                            == positional[0])
                        &&& (positional.len() == 0 ==> kv.key is None)
                        &&& (positional.len() == 2 ==> kv.value is Some && kv.value->0@
                            == positional[1])
                        &&& (positional.len() <= 1 ==> kv.value is None)
                        &&& kv.init == cli.flags.deep_view().contains("--init"@)
                        &&& kv.help == cli.flags.deep_view().contains("--help"@)
                        &&& kv.version == cli.flags.deep_view().contains("--version"@)
                        &&& kv.append == cli.flags.deep_view().contains("--append"@)
                        &&& kv.env == env
                        &&& kv.sep == sep
                    },
                    Err(e) => match e {
                        KvError::UnknownArg(a) => positional.len() > 2 && a@ == positional[2],
                        _ => false,
                    },
                }
            }),
    {
        let mut c = cli;
        let kv = KvStore {
            db,
            key: c.next_arg(),
            value: c.next_arg(),
            init: c.check_flag("--init"),
            help: c.check_flag("--help"),
            version: c.check_flag("--version"),
            append: c.check_flag("--append"),
            env,
            sep,
        };
        proof {
            assert(forall|i: int|
                0 <= i < cli.args@.len() ==> cli.args.deep_view()[i] == cli.args@[i]@);
        }
        match c.next_arg() {
            Some(a) => {
                proof {
                    assert(cli.args@.len() > 2);
                    assert(a == cli.args@.drop_first().drop_first()[0]);
                    assert(a@ == cli.args.deep_view()[2]);
                }
                Err(KvError::UnknownArg(a))
            },
            None => {
                proof {
                    if cli.args@.len() >= 1 {
                        assert(kv.key == Some(cli.args@[0]));
                    }
                    if cli.args@.len() >= 2 {
                        assert(kv.value == Some(cli.args@.drop_first()[0]));
                        assert(cli.args@.drop_first()[0] == cli.args@[1]);
                    }
                }
                Ok(kv)
            },
        }
    }

    /// The assignment text one key contributes in export mode: the key must
    /// be in the store. A key absent from the environment snapshot is
    /// emitted verbatim; the path-list key has its genuinely new segments
    /// appended after the environment's value; any other key already present
    /// in the environment contributes nothing.
    pub fn set_key_to_var(&self, key: &str) -> (r: String)
        requires
            lookup(self.db.entries(), key@) is Some,
        ensures
            r@ == export_one(
                key@,
                lookup(self.db.entries(), key@).unwrap(),
                lookup(self.env.deep_view(), key@),
                self.sep,
            ),
    {
        let val = self.db.view(key).unwrap();
        match assoc_lookup(&self.env, key) {
            None => {
                let mut out = String::from_str(key);
                push_char(&mut out, '=');
                out.append(val.as_str());
                push_char(&mut out, ' ');
                proof {
                    assert(out@ =~= key@ + seq!['='] + val@ + seq![' ']);
                }
                out
            },
            Some(evar) => {
                if str_eq(key, "PATH") {
                    let stored = split_str(val.as_str(), self.sep);
                    let existing = split_str(evar.as_str(), self.sep);
                    let ghost fresh_spec = fresh_segments(
                        split(val@, self.sep),
                        split(evar@, self.sep),
                    );
                    let mut fresh: Vec<String> = Vec::new();
                    let n = stored.len();
                    let mut i: usize = 0;
                    proof {
                        assert(stored.deep_view().take(0) =~= Seq::<Seq<char>>::empty());
                        assert(fresh.deep_view() =~= fresh_segments(
                            stored.deep_view().take(0),
                            existing.deep_view(),
                        ));
                    }
                    while i < n
                        invariant
                            n == stored.deep_view().len(),
                            i <= n,
                            stored.deep_view() == split(val@, self.sep),
                            existing.deep_view() == split(evar@, self.sep),
                            fresh.deep_view() == fresh_segments(
                                stored.deep_view().take(i as int),
                                existing.deep_view(),
                            ),
                        decreases n - i,
                    {
                        let ghost prev = fresh.deep_view();
                        if !contains_string(&existing, stored[i].as_str()) {
                            fresh.push(stored[i].clone());
                            proof {
                                assert(fresh.deep_view() =~= prev.push(
                                    stored.deep_view()[i as int],
                                ));
                            }
                        }
                        proof {
                            lemma_fresh_segments_push(
                                stored.deep_view().take(i as int),
                                existing.deep_view(),
                                stored.deep_view()[i as int],
                            );
                            assert(stored.deep_view().take(i as int).push(
                                stored.deep_view()[i as int],
                            ) =~= stored.deep_view().take(i + 1 as int));
                        }
                        i = i + 1;
                    }
                    proof {
                        assert(stored.deep_view().take(n as int) =~= stored.deep_view());
                    }
                    if fresh.is_empty() {
                        String::new()
                    } else {
                        let mut out = String::from_str(key);
                        push_char(&mut out, '=');
                        out.append(evar.as_str());
                        push_char(&mut out, self.sep);
                        let joined = join_strings(&fresh, self.sep);
                        out.append(joined.as_str());
                        push_char(&mut out, ' ');
                        proof {
                            assert(out@ =~= key@ + seq!['='] + evar@ + seq![self.sep] + join(
                                fresh_spec,
                                self.sep,
                            ) + seq![' ']);
                        }
                        out
                    }
                } else {
                    String::new()
                }
            },
        }
    }

    /// The whole export-mode output: every key's contribution, in store
    /// order.
    pub fn boot_env(&self) -> (r: String)
        requires
            self.db.wf(),
        ensures
            r@ == export_all(self.db.entries(), self.env.deep_view(), self.sep),
    {
        let keys = self.db.get_keys();
        let mut out = String::new();
        let n = keys.len();
        let mut i: usize = 0;
        proof {
            assert(self.db.entries().take(0) =~= Seq::<(Seq<char>, Seq<char>)>::empty());
            assert(keys.deep_view().len() == keys@.len());
            assert(keys.deep_view().len() == self.db.entries().len());
        }
        while i < n
            invariant
                self.db.wf(),
                keys.deep_view() == self.db.entries().map_values(
                    |p: (Seq<char>, Seq<char>)| p.0,
                ),
                n == self.db.entries().len(),
                n == keys@.len(),
                i <= n,
                out@ == export_all(
                    self.db.entries().take(i as int),
                    self.env.deep_view(),
                    self.sep,
                ),
            decreases n - i,
        {
            let ghost entries = self.db.entries();
            proof {
                assert(keys.deep_view()[i as int] == entries[i as int].0);
                lemma_lookup_first_match(entries, entries[i as int].0, i as int);
            }
            let part = self.set_key_to_var(keys[i].as_str());
            out.append(part.as_str());
            proof {
                lemma_export_all_push(
                    entries.take(i as int),
                    self.env.deep_view(),
                    self.sep,
                    entries[i as int],
                );
                assert(entries.take(i as int).push(entries[i as int]) =~= entries.take(
                    i + 1 as int,
                ));
            }
            i = i + 1;
        }
        proof {
            assert(self.db.entries().take(n as int) =~= self.db.entries());
        }
        out
    }

    /// The full listing of every non-empty-valued entry, column-aligned.
    fn build_listing(db: &Database) -> (r: String)
        requires
            db.wf(),
        ensures
            r@ == listing(db.entries()),
    {
        let ghost entries = db.entries();
        let keys = db.get_keys();
        let n = keys.len();
        proof {
            assert(keys.deep_view().len() == keys@.len());
            assert(keys.deep_view().len() == entries.len());
            assert(entries.take(0) =~= Seq::<(Seq<char>, Seq<char>)>::empty());
        }
        let mut w: usize = 0;
        let mut i: usize = 0;
        while i < n
            invariant
                entries == db.entries(),
                keys.deep_view() == entries.map_values(|p: (Seq<char>, Seq<char>)| p.0),
                n == entries.len(),
                n == keys@.len(),
                i <= n,
                w as nat == max_key_len(entries.take(i as int)),
            decreases n - i,
        {
            let l = keys[i].as_str().unicode_len();
            proof {
                assert(keys.deep_view()[i as int] == entries[i as int].0);
                assert(entries.take(i + 1 as int).drop_last() =~= entries.take(i as int));
                assert(entries.take(i + 1 as int).last() == entries[i as int]);
            }
            if l > w {
                w = l;
            }
            i = i + 1;
        }
        proof {
            assert(entries.take(n as int) =~= entries);
        }
        let mut out = String::new();
        let mut i: usize = 0;
        while i < n
            invariant
                db.wf(),
                entries == db.entries(),
                keys.deep_view() == entries.map_values(|p: (Seq<char>, Seq<char>)| p.0),
                n == entries.len(),
                n == keys@.len(),
                i <= n,
                w as nat == max_key_len(entries),
                out@ == listing_lines(entries.take(i as int), w as nat),
            decreases n - i,
        {
            proof {
                assert(keys.deep_view()[i as int] == entries[i as int].0);
                lemma_lookup_first_match(entries, entries[i as int].0, i as int);
            }
            let v = db.view(keys[i].as_str()).unwrap();
            if !v.as_str().is_empty() {
                out.append(keys[i].as_str());
                let klen = keys[i].as_str().unicode_len();
                proof {
                    lemma_max_key_len_ge(entries, i as int);
                }
                let pad = w - klen;
                let sp = make_spaces(pad);
                out.append(sp.as_str());
                out.append("    ");
                out.append(v.as_str());
                out.append("\n");
                proof {
                    reveal_strlit("    ");
                    reveal_strlit("\n");
                    reveal_with_fuel(spaces, 5);
                    assert("    "@ =~= spaces(4));
                    assert("\n"@ =~= seq!['\n']);
                    lemma_spaces_add(pad as nat, 4);
                    assert(spaces(pad as nat) + spaces(4) == spaces((pad + 4) as nat));
                    assert((pad + 4) as nat == (w as nat - entries[i as int].0.len() + 4) as nat);
                }
            }
            proof {
                lemma_listing_lines_push(entries.take(i as int), w as nat, entries[i as int]);
                assert(entries.take(i as int).push(entries[i as int]) =~= entries.take(
                    i + 1 as int,
                ));
                assert(out@ =~= listing_lines(entries.take(i + 1 as int), w as nat));
            }
            i = i + 1;
        }
        proof {
            assert(entries.take(n as int) =~= entries);
        }
        if !out.as_str().is_empty() {
            pop_char(&mut out);
        }
        out
    }

    /// Decides one invocation and performs it against the in-memory store,
    /// in this precedence: the version string; the usage text (asked for, or
    /// no key given without export mode); the export-mode output; an edit of
    /// the store, to be written back; a key's value, the full listing for
    /// the key `.`, or nothing.
    pub fn run(&mut self) -> (r: RunOutput)
        requires
            old(self).db.wf(),
        ensures
            final(self).db.wf(),
            final(self).db.path() == old(self).db.path(),
            final(self).key == old(self).key,
            final(self).value == old(self).value,
            final(self).init == old(self).init,
            final(self).help == old(self).help,
            final(self).version == old(self).version,
            final(self).append == old(self).append,
            final(self).env == old(self).env,
            final(self).sep == old(self).sep,
            r.save_needed == (!old(self).version && !old(self).help && !old(self).init && old(
                self,
            ).key is Some && old(self).value is Some),
            !r.save_needed ==> final(self).db == old(self).db,
            old(self).version ==> r.message@ == crate::version_text(),
            !old(self).version && (old(self).help || (old(self).key is None && !old(self).init))
                ==> r.message@ == crate::usage_text(),
            !old(self).version && !old(self).help && old(self).init ==> r.message@ == export_all(
                old(self).db.entries(),
                old(self).env.deep_view(),
                old(self).sep,
            ),
            !old(self).version && !old(self).help && !old(self).init && old(self).key is Some
                && old(self).value is Some ==> final(self).db.entries() == edited(
                old(self).db.entries(),
                old(self).key.unwrap()@,
                old(self).value.unwrap()@,
                old(self).append,
            ) && r.message@ == "kv-info: Save successful"@,
            !old(self).version && !old(self).help && !old(self).init && old(self).key is Some
                && old(self).value is None ==> r.message@ == (match lookup(
                old(self).db.entries(),
                old(self).key.unwrap()@,
            ) {
                Some(v) => v,
                None => if old(self).key.unwrap()@ == "."@ {
                    listing(old(self).db.entries())
                } else {
                    Seq::<char>::empty()
                },
            }),
    {
        if self.version {
            return RunOutput { message: String::from_str(crate::version()), save_needed: false };
        }
        if self.help || (self.key.is_none() && !self.init) {
            return RunOutput { message: String::from_str(crate::usage()), save_needed: false };
        }
        if self.init {
            let message = self.boot_env();
            return RunOutput { message, save_needed: false };
        }
        let key = self.key.as_ref().unwrap().clone();
        if self.value.is_some() {
            let value = self.value.as_ref().unwrap().clone();
            self.db.edit(key.as_str(), value.as_str(), self.append);
            return RunOutput {
                message: String::from_str("kv-info: Save successful"),
                save_needed: true,
            };
        }
        match self.db.view(key.as_str()) {
            Some(v) => RunOutput { message: v.clone(), save_needed: false },
            None => {
                if str_eq(key.as_str(), ".") {
                    RunOutput { message: Self::build_listing(&self.db), save_needed: false }
                } else {
                    RunOutput { message: String::new(), save_needed: false }
                }
            },
        }
    }
}

} // verus!
