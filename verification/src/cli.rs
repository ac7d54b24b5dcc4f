//! The command-line splitter: raw invocation tokens become positional
//! arguments and flags.
use vstd::prelude::*;

use crate::text::str_eq;

verus! {

/// True when a raw token is a flag: it begins with a dash.
pub open spec fn is_flag_token(s: Seq<char>) -> bool {
    s.len() > 0 && s[0] == '-'
}

/// A token list without its first element (the program's own name), or the
/// list itself when there is none.
pub open spec fn tail_of(s: Seq<Seq<char>>) -> Seq<Seq<char>> {
    if s.len() == 0 {
        s
    } else {
        s.drop_first()
    }
}

/// One invocation's tokens, split into positional arguments and flags, each
/// side in the order given.
#[derive(Debug, PartialEq)]
pub struct Cli {
    pub args: Vec<String>,
    pub flags: Vec<String>,
}

impl Cli {
    /// Splits raw command-line tokens: the first is the program name and is
    /// dropped; of the rest, tokens beginning with a dash are flags and all
    /// others are positional arguments, each side keeping its order.
    pub fn new(cla: Vec<String>) -> (r: Cli)
        ensures
            r.args.deep_view() == tail_of(cla.deep_view()).filter(
                |s: Seq<char>| !is_flag_token(s),
            ),
            r.flags.deep_view() == tail_of(cla.deep_view()).filter(
                |s: Seq<char>| is_flag_token(s),
            ),
    {
        let ghost t = tail_of(cla.deep_view());
        let ghost pos = |s: Seq<char>| !is_flag_token(s);
        let ghost flg = |s: Seq<char>| is_flag_token(s);
        let n = cla.len();
        let mut args: Vec<String> = Vec::new();
        let mut flags: Vec<String> = Vec::new();
        let mut i: usize = 1;
        proof {
            assert(t.take(0) =~= Seq::<Seq<char>>::empty());
            reveal(Seq::filter);
        }
        while i < n
            invariant
                n == cla.deep_view().len(),
                1 <= i,
                i <= n || i == 1,
                t == tail_of(cla.deep_view()),
                n > 0 ==> t.len() == n - 1,
                pos == (|s: Seq<char>| !is_flag_token(s)),
                flg == (|s: Seq<char>| is_flag_token(s)),
                args.deep_view() == t.take(i - 1).filter(pos),
                flags.deep_view() == t.take(i - 1).filter(flg),
            decreases n - i,
        {
            let tok = cla[i].clone();
            let is_flag = !tok.as_str().is_empty() && tok.as_str().get_char(0) == '-';
            proof {
                assert(tok@ == t[i - 1]);
                assert(is_flag == is_flag_token(t[i - 1]));
                reveal(Seq::filter);
                let prev = t.take(i - 1);
                let cur = t.take(i as int);
                assert(cur =~= prev.push(t[i - 1]));
                assert(cur.drop_last() =~= prev);
                assert(cur.last() == t[i - 1]);
            }
            if is_flag {
                let ghost prevflags = flags.deep_view();
                flags.push(tok);
                proof {
                    assert(flags.deep_view() =~= prevflags.push(t[i - 1]));
                    assert(flags.deep_view() =~= t.take(i as int).filter(flg));
                    assert(args.deep_view() =~= t.take(i as int).filter(pos));
                }
            } else {
                let ghost prevargs = args.deep_view();
                args.push(tok);
                proof {
                    assert(args.deep_view() =~= prevargs.push(t[i - 1]));
                    assert(args.deep_view() =~= t.take(i as int).filter(pos));
                    assert(flags.deep_view() =~= t.take(i as int).filter(flg));
                }
            }
            i = i + 1;
        }
        proof {
            if n == 0 {
                assert(t.len() == 0);
                assert(t.take(0) =~= t);
            } else {
                assert(i == n);
                assert(t.take(i - 1) =~= t);
            }
        }
        Cli { args, flags }
    }

    /// Removes and returns the first remaining positional argument, if any.
    pub fn next_arg(&mut self) -> (r: Option<String>)
        ensures
            old(self).args@.len() == 0 ==> r is None && final(self).args == old(self).args
                && final(self).flags == old(self).flags,
            old(self).args@.len() > 0 ==> r == Some(old(self).args@[0]) && final(self).args@
                == old(self).args@.drop_first() && final(self).flags == old(self).flags,
    {
        if self.args.is_empty() {
            None
        } else {
            let s = self.args.remove(0);
            proof {
                assert(self.args@ =~= old(self).args@.drop_first());
            }
            Some(s)
        }
    }

    /// True when the given flag token was supplied.
    pub fn check_flag(&self, flag: &str) -> (r: bool)
        ensures
            r == self.flags.deep_view().contains(flag@),
    {
        let n = self.flags.len();
        let mut i: usize = 0;
        while i < n
            invariant
                n == self.flags.deep_view().len(),
                i <= n,
                forall|j: int| 0 <= j < i ==> self.flags.deep_view()[j] != flag@,
            decreases n - i,
        {
            if str_eq(self.flags[i].as_str(), flag) {
                proof {
                    assert(self.flags.deep_view()[i as int] == flag@);
                }
                return true;
            }
            i = i + 1;
        }
        proof {
            if self.flags.deep_view().contains(flag@) {
                let j = choose|j: int|
                    0 <= j < self.flags.deep_view().len() && self.flags.deep_view()[j] == flag@;
            }
        }
        false
    }
}

} // verus!
