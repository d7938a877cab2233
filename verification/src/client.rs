//! The client's command line: `read <key>`, `write <key> <value>`,
//! `delete <key>`, whitespace-delimited, one command per line.

use crate::common_enums::Request;
use crate::order::str_eq;
use vstd::prelude::*;

verus! {

/// The whitespace that separates command words.
pub open spec fn is_space(c: char) -> bool {
    c == ' ' || c == '\t' || c == '\r' || c == '\n'
}

/// The index of the first whitespace character of `s`, or `s.len()`.
pub open spec fn find_space(s: Seq<char>) -> nat
    decreases s.len(),
{
    if s.len() == 0 {
        0
    } else if is_space(s[0]) {
        0
    } else {
        1 + find_space(s.drop_first())
    }
}

/// What `find_space` finds is the first whitespace character.
pub proof fn lemma_find_space(s: Seq<char>)
    ensures
        find_space(s) <= s.len(),
        forall|j: int| 0 <= j < find_space(s) ==> !is_space(s[j]),
        find_space(s) < s.len() ==> is_space(s[find_space(s) as int]),
    decreases s.len(),
{
    if s.len() != 0 && !is_space(s[0]) {
        lemma_find_space(s.drop_first());
        assert forall|j: int| 0 <= j < find_space(s) implies !is_space(s[j]) by {
            if j > 0 {
                assert(!is_space(s.drop_first()[j - 1]));
            }
        }
    }
}

/// A position before which no whitespace stands, and at which whitespace
/// stands (or which is the end), is the position `find_space` returns.
pub proof fn lemma_find_space_at(s: Seq<char>, n: nat)
    requires
        n <= s.len(),
        forall|j: int| 0 <= j < n ==> !is_space(s[j]),
        n < s.len() ==> is_space(s[n as int]),
    ensures
        find_space(s) == n,
    decreases s.len(),
{
    if s.len() == 0 {
    } else if is_space(s[0]) {
        assert(n == 0);
    } else {
        assert(n >= 1) by {
            assert(n < s.len() ==> is_space(s[n as int]));
        }
        let t = s.drop_first();
        assert forall|j: int| 0 <= j < n - 1 implies !is_space(t[j]) by {
            assert(!is_space(s[j + 1]));
        }
        lemma_find_space_at(t, (n - 1) as nat);
    }
}

/// The whitespace-delimited words of `s`, in order.
pub open spec fn tokens_of(s: Seq<char>) -> Seq<Seq<char>>
    decreases s.len(),
    via tokens_of_decreases
{
    if s.len() == 0 {
        Seq::empty()
    } else if is_space(s[0]) {
        tokens_of(s.drop_first())
    } else {
        let n = find_space(s);
        seq![s.take(n as int)] + tokens_of(s.skip(n as int))
    }
}

#[via_fn]
proof fn tokens_of_decreases(s: Seq<char>) {
    lemma_find_space(s);
}

impl Request {
    /// Parses one whitespace-delimited command line: `read <key>`,
    /// `write <key> <value>`, or `delete <key>`.  Anything else is no
    /// command.
    pub fn from_input(input: &str) -> (r: Option<Request>)
        ensures
            match r {
                Some(req) => match req {
                    Request::Read { key } => tokens_of(input@) =~= seq!["read"@, key@],
                    Request::Write { key, value } => tokens_of(input@) =~= seq![
                        "write"@,
                        key@,
                        value@,
                    ],
                    Request::Delete { key } => tokens_of(input@) =~= seq!["delete"@, key@],
                },
                None => {
                    let ts = tokens_of(input@);
                    &&& !(ts.len() == 2 && (ts[0] == "read"@ || ts[0] == "delete"@))
                    &&& !(ts.len() == 3 && ts[0] == "write"@)
                },
            },
    {
        let tokens = split_words(input);
        let ghost ts = tokens_of(input@);
        proof {
            assert forall|i: int| 0 <= i < tokens@.len() implies #[trigger] tokens@[i]@ == ts[i] by {
                assert(tokens@.map_values(|t: String| t@)[i] == tokens@[i]@);
            }
        }
        if tokens.len() == 2 && str_eq(tokens[0].as_str(), "read") {
            let key = tokens[1].clone();
            proof {
                assert(ts =~= seq!["read"@, key@]);
            }
            Some(Request::Read { key })
        } else if tokens.len() == 2 && str_eq(tokens[0].as_str(), "delete") {
            let key = tokens[1].clone();
            proof {
                assert(ts =~= seq!["delete"@, key@]);
            }
            Some(Request::Delete { key })
        } else if tokens.len() == 3 && str_eq(tokens[0].as_str(), "write") {
            let key = tokens[1].clone();
            let value = tokens[2].clone();
            proof {
                assert(ts =~= seq!["write"@, key@, value@]);
            }
            Some(Request::Write { key, value })
        } else {
            None
        }
    }
}

/// Splits a line into its whitespace-delimited words.
fn split_words(input: &str) -> (tokens: Vec<String>)
    ensures
        tokens@.map_values(|t: String| t@) == tokens_of(input@),
{
    let len = input.unicode_len();
    let mut tokens: Vec<String> = Vec::new();
    let mut p: usize = 0;
    proof {
        assert(input@.skip(0) =~= input@);
        assert(tokens@.map_values(|t: String| t@) + tokens_of(input@) =~= tokens_of(input@));
    }
    while p < len
        invariant
            p <= len,
            len == input@.len(),
            tokens_of(input@) == tokens@.map_values(|t: String| t@) + tokens_of(
                input@.skip(p as int),
            ),
        decreases len - p,
    {
        let c = input.get_char(p);
        if c == ' ' || c == '\t' || c == '\r' || c == '\n' {
            proof {
                assert(input@.skip(p as int).drop_first() =~= input@.skip(p + 1));
            }
            p += 1;
        } else {
            let ghost suffix = input@.skip(p as int);
            let ghost before = tokens@.map_values(|t: String| t@);
            let end = find_space_from(input, p);
            let word = String::from_str(input.substring_char(p, end));
            tokens.push(word);
            proof {
                assert(suffix.take((end - p) as int) =~= word@);
                assert(suffix.skip((end - p) as int) =~= input@.skip(end as int));
                assert(tokens@.map_values(|t: String| t@) =~= before.push(word@));
                assert(before.push(word@) + tokens_of(input@.skip(end as int)) =~= before + (seq![
                    word@,
                ] + tokens_of(input@.skip(end as int))));
            }
            p = end;
        }
    }
    proof {
        assert(input@.skip(len as int) =~= Seq::<char>::empty());
        assert(tokens@.map_values(|t: String| t@) + Seq::<Seq<char>>::empty() =~= tokens@.map_values(
            |t: String| t@,
        ));
    }
    tokens
}

/// The position of the first whitespace at or after `from`, or the string's
/// length.
fn find_space_from(s: &str, from: usize) -> (n: usize)
    requires
        from <= s@.len(),
    ensures
        from <= n <= s@.len(),
        n - from == find_space(s@.skip(from as int)),
{
    let len = s.unicode_len();
    let mut i: usize = from;
    while i < len
        invariant
            from <= i <= len,
            len == s@.len(),
            forall|j: int| from <= j < i ==> !is_space(s@[j]),
        decreases len - i,
    {
        let c = s.get_char(i);
        if c == ' ' || c == '\t' || c == '\r' || c == '\n' {
            proof {
                let t = s@.skip(from as int);
                assert forall|j: int| 0 <= j < i - from implies !is_space(t[j]) by {
                    assert(!is_space(s@[from + j]));
                }
                lemma_find_space_at(t, (i - from) as nat);
            }
            return i;
        }
        i += 1;
    }
    proof {
        let t = s@.skip(from as int);
        assert forall|j: int| 0 <= j < len - from implies !is_space(t[j]) by {
            assert(!is_space(s@[from + j]));
        }
        lemma_find_space_at(t, (len - from) as nat);
    }
    len
}

} // verus!
