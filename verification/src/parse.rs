//! The command grammars: how one input line is split into a command word and
//! its arguments. Each shape has a spec-level parse function and a verified
//! executable parser proved against it.

use vstd::prelude::*;
use crate::strutil::{is_prefix, str_starts_with, find_char_from, rfind_char, substring_copy};

verus! {

/// `index_of_first` pinned down: a first occurrence at `i` is the answer.
pub proof fn lemma_first_index<A>(s: Seq<A>, x: A, i: int)
    requires
        0 <= i < s.len(),
        s[i] == x,
        forall|j: int| 0 <= j < i ==> s[j] != x,
    ensures
        s.index_of_first(x) == Some(i),
{
    s.index_of_first_ensures(x);
    assert(s.contains(x));
    match s.index_of_first(x) {
        Some(k) => {
            if k < i {
                assert(s[k] != x);
            } else if k > i {
                assert(s[i] != x);
            }
        },
        None => {
            assert(false);
        },
    }
}

/// `index_of_first` pinned down: with no occurrence there is no answer.
pub proof fn lemma_first_index_none<A>(s: Seq<A>, x: A)
    requires
        forall|j: int| 0 <= j < s.len() ==> s[j] != x,
    ensures
        s.index_of_first(x) is None,
{
    s.index_of_first_ensures(x);
    match s.index_of_first(x) {
        Some(k) => {
            assert(s[k] != x);
        },
        None => {},
    }
}

/// `index_of_last` pinned down: a last occurrence at `i` is the answer.
pub proof fn lemma_last_index<A>(s: Seq<A>, x: A, i: int)
    requires
        0 <= i < s.len(),
        s[i] == x,
        forall|j: int| i < j < s.len() ==> s[j] != x,
    ensures
        s.index_of_last(x) == Some(i),
{
    s.index_of_last_ensures(x);
    assert(s.contains(x));
    match s.index_of_last(x) {
        Some(k) => {
            if k > i {
                assert(s[k] != x);
            } else if k < i {
                assert(s[i] != x);
            }
        },
        None => {
            assert(false);
        },
    }
}

/// `index_of_last` pinned down: with no occurrence there is no answer.
pub proof fn lemma_last_index_none<A>(s: Seq<A>, x: A)
    requires
        forall|j: int| 0 <= j < s.len() ==> s[j] != x,
    ensures
        s.index_of_last(x) is None,
{
    s.index_of_last_ensures(x);
    match s.index_of_last(x) {
        Some(k) => {
            assert(s[k] != x);
        },
        None => {},
    }
}

/// After `prefix`, one non-empty run of non-space characters.
pub open spec fn arg_token(s: Seq<char>, prefix: Seq<char>) -> Option<Seq<char>> {
    if is_prefix(prefix, s) {
        let rest = s.subrange(prefix.len() as int, s.len() as int);
        if rest.len() == 0 || rest[0] == ' ' {
            None
        } else {
            match rest.index_of_first(' ') {
                Some(i) => Some(rest.subrange(0, i)),
                None => Some(rest),
            }
        }
    } else {
        None
    }
}

pub fn arg_token_exec(s: &str, prefix: &str) -> (r: Option<String>)
    ensures
        arg_token(s@, prefix@) == match r {
            Some(t) => Some(t@),
            None => None::<Seq<char>>,
        },
{
    if !str_starts_with(s, prefix) {
        return None;
    }
    let plen = prefix.unicode_len();
    let len = s.unicode_len();
    let ghost rest = s@.subrange(plen as int, len as int);
    if plen == len {
        return None;
    }
    if s.get_char(plen) == ' ' {
        proof {
            assert(rest[0] == ' ');
        }
        return None;
    }
    proof {
        assert(rest[0] != ' ');
    }
    match find_char_from(s, ' ', plen) {
        Some(i) => {
            proof {
                assert forall|j: int| 0 <= j < i - plen implies rest[j] != ' ' by {
                    assert(rest[j] == s@[plen + j]);
                }
                assert(rest[i - plen] == s@[i as int]);
                lemma_first_index(rest, ' ', i - plen);
            }
            let t = substring_copy(s, plen, i);
            proof {
                assert(t@ =~= rest.subrange(0, i - plen));
            }
            Some(t)
        },
        None => {
            proof {
                assert forall|j: int| 0 <= j < rest.len() implies rest[j] != ' ' by {
                    assert(rest[j] == s@[plen + j]);
                }
                lemma_first_index_none(rest, ' ');
            }
            let t = substring_copy(s, plen, len);
            proof {
                assert(t@ =~= rest);
            }
            Some(t)
        },
    }
}

/// After `prefix`, the whole non-empty remainder (spaces allowed).
pub open spec fn rest_arg(s: Seq<char>, prefix: Seq<char>) -> Option<Seq<char>> {
    if is_prefix(prefix, s) && s.len() > prefix.len() {
        Some(s.subrange(prefix.len() as int, s.len() as int))
    } else {
        None
    }
}

pub fn rest_arg_exec(s: &str, prefix: &str) -> (r: Option<String>)
    ensures
        rest_arg(s@, prefix@) == match r {
            Some(t) => Some(t@),
            None => None::<Seq<char>>,
        },
{
    if !str_starts_with(s, prefix) {
        return None;
    }
    let plen = prefix.unicode_len();
    let len = s.unicode_len();
    if plen == len {
        return None;
    }
    Some(substring_copy(s, plen, len))
}

/// A quoted object name and a non-empty description:
/// `\describe "<object name>" <description>`.
pub open spec fn describe_args(s: Seq<char>) -> Option<(Seq<char>, Seq<char>)> {
    let p = "\\describe \""@;
    if is_prefix(p, s) {
        let rest = s.subrange(p.len() as int, s.len() as int);
        match rest.index_of_first('"') {
            Some(i) => if i >= 1 && rest.len() > i + 2 && rest[i + 1] == ' ' {
                Some((rest.subrange(0, i), rest.subrange(i + 2, rest.len() as int)))
            } else {
                None
            },
            None => None,
        }
    } else {
        None
    }
}

pub fn describe_args_exec(s: &str) -> (r: Option<(String, String)>)
    ensures
        describe_args(s@) == match r {
            Some(t) => Some((t.0@, t.1@)),
            None => None::<(Seq<char>, Seq<char>)>,
        },
{
    let p = "\\describe \"";
    if !str_starts_with(s, p) {
        return None;
    }
    let plen = p.unicode_len();
    let len = s.unicode_len();
    let ghost rest = s@.subrange(plen as int, len as int);
    match find_char_from(s, '"', plen) {
        Some(i) => {
            proof {
                assert forall|j: int| 0 <= j < i - plen implies rest[j] != '"' by {
                    assert(rest[j] == s@[plen + j]);
                }
                assert(rest[i - plen] == s@[i as int]);
                lemma_first_index(rest, '"', i - plen);
            }
            if i == plen {
                return None;
            }
            if len - i <= 2 {
                return None;
            }
            if s.get_char(i + 1) != ' ' {
                proof {
                    assert(rest[i - plen + 1] == s@[i + 1]);
                }
                return None;
            }
            let name = substring_copy(s, plen, i);
            let desc = substring_copy(s, i + 2, len);
            proof {
                assert(rest[i - plen + 1] == s@[i + 1]);
                assert(name@ =~= rest.subrange(0, i - plen));
                assert(desc@ =~= rest.subrange(i - plen + 2, rest.len() as int));
            }
            Some((name, desc))
        },
        None => {
            proof {
                assert forall|j: int| 0 <= j < rest.len() implies rest[j] != '"' by {
                    assert(rest[j] == s@[plen + j]);
                }
                lemma_first_index_none(rest, '"');
            }
            None
        },
    }
}

/// Object name, action name, and action body:
/// `\action <object name>:<action name>:<action string>`.
/// The object name runs to the first `:`, the action name to the next one,
/// and the body (non-empty) is everything after that.
pub open spec fn action_args(s: Seq<char>) -> Option<(Seq<char>, Seq<char>, Seq<char>)> {
    let p = "\\action "@;
    if is_prefix(p, s) {
        let rest = s.subrange(p.len() as int, s.len() as int);
        match rest.index_of_first(':') {
            Some(i) => if i >= 1 {
                let rest2 = rest.subrange(i + 1, rest.len() as int);
                match rest2.index_of_first(':') {
                    Some(j) => if j >= 1 && rest2.len() > j + 1 {
                        Some(
                            (
                                rest.subrange(0, i),
                                rest2.subrange(0, j),
                                rest2.subrange(j + 1, rest2.len() as int),
                            ),
                        )
                    } else {
                        None
                    },
                    None => None,
                }
            } else {
                None
            },
            None => None,
        }
    } else {
        None
    }
}

pub fn action_args_exec(s: &str) -> (r: Option<(String, String, String)>)
    ensures
        action_args(s@) == match r {
            Some(t) => Some((t.0@, t.1@, t.2@)),
            None => None::<(Seq<char>, Seq<char>, Seq<char>)>,
        },
{
    let p = "\\action ";
    if !str_starts_with(s, p) {
        return None;
    }
    let plen = p.unicode_len();
    let len = s.unicode_len();
    let ghost rest = s@.subrange(plen as int, len as int);
    let first = match find_char_from(s, ':', plen) {
        Some(i) => {
            proof {
                assert forall|j: int| 0 <= j < i - plen implies rest[j] != ':' by {
                    assert(rest[j] == s@[plen + j]);
                }
                assert(rest[i - plen] == s@[i as int]);
                lemma_first_index(rest, ':', i - plen);
            }
            i
        },
        None => {
            proof {
                assert forall|j: int| 0 <= j < rest.len() implies rest[j] != ':' by {
                    assert(rest[j] == s@[plen + j]);
                }
                lemma_first_index_none(rest, ':');
            }
            return None;
        },
    };
    if first == plen {
        return None;
    }
    let ghost i = first - plen;
    let ghost rest2 = rest.subrange(i + 1, rest.len() as int);
    proof {
        assert(forall|j: int| 0 <= j < rest2.len() ==> rest2[j] == s@[first + 1 + j]);
    }
    let second = match find_char_from(s, ':', first + 1) {
        Some(k) => {
            proof {
                assert(rest2[k - first - 1] == s@[k as int]);
                lemma_first_index(rest2, ':', k - first - 1);
            }
            k
        },
        None => {
            proof {
                lemma_first_index_none(rest2, ':');
            }
            return None;
        },
    };
    if second == first + 1 {
        return None;
    }
    if second + 1 >= len {
        return None;
    }
    let obj = substring_copy(s, plen, first);
    let act = substring_copy(s, first + 1, second);
    let body = substring_copy(s, second + 1, len);
    proof {
        let j = second - first - 1;
        assert(obj@ =~= rest.subrange(0, i));
        assert(act@ =~= rest2.subrange(0, j));
        assert(body@ =~= rest2.subrange(j + 1, rest2.len() as int));
    }
    Some((obj, act, body))
}

/// Object name and action name: `i <object name> <action>`. The action is
/// the word after the last space, so the object name may contain spaces.
pub open spec fn touch_args(s: Seq<char>) -> Option<(Seq<char>, Seq<char>)> {
    let p = "i "@;
    if is_prefix(p, s) {
        let rest = s.subrange(p.len() as int, s.len() as int);
        match rest.index_of_last(' ') {
            Some(i) => if i >= 1 && i + 1 < rest.len() {
                Some((rest.subrange(0, i), rest.subrange(i + 1, rest.len() as int)))
            } else {
                None
            },
            None => None,
        }
    } else {
        None
    }
}

pub fn touch_args_exec(s: &str) -> (r: Option<(String, String)>)
    ensures
        touch_args(s@) == match r {
            Some(t) => Some((t.0@, t.1@)),
            None => None::<(Seq<char>, Seq<char>)>,
        },
{
    let p = "i ";
    if !str_starts_with(s, p) {
        return None;
    }
    let plen = p.unicode_len();
    let len = s.unicode_len();
    let ghost rest = s@.subrange(plen as int, len as int);
    match rfind_char(s, ' ') {
        Some(a) => {
            if a < plen {
                // The only spaces stand inside the prefix itself.
                proof {
                    assert forall|j: int| 0 <= j < rest.len() implies rest[j] != ' ' by {
                        assert(rest[j] == s@[plen + j]);
                    }
                    lemma_last_index_none(rest, ' ');
                }
                return None;
            }
            proof {
                assert(rest[a - plen] == s@[a as int]);
                assert forall|j: int| a - plen < j < rest.len() implies rest[j] != ' ' by {
                    assert(rest[j] == s@[plen + j]);
                }
                lemma_last_index(rest, ' ', a - plen);
            }
            if a == plen {
                return None;
            }
            if a + 1 >= len {
                return None;
            }
            let obj = substring_copy(s, plen, a);
            let act = substring_copy(s, a + 1, len);
            proof {
                assert(obj@ =~= rest.subrange(0, a - plen));
                assert(act@ =~= rest.subrange(a - plen + 1, rest.len() as int));
            }
            Some((obj, act))
        },
        None => {
            proof {
                assert forall|j: int| 0 <= j < rest.len() implies rest[j] != ' ' by {
                    assert(rest[j] == s@[plen + j]);
                }
                lemma_last_index_none(rest, ' ');
            }
            None
        },
    }
}

/// The input up to the first space: the command word the dispatcher matches.
pub open spec fn first_word(s: Seq<char>) -> Seq<char> {
    match s.index_of_first(' ') {
        Some(i) => s.subrange(0, i),
        None => s,
    }
}

pub fn first_word_exec(s: &str) -> (r: String)
    ensures
        r@ == first_word(s@),
{
    match find_char_from(s, ' ', 0) {
        Some(i) => {
            proof {
                lemma_first_index(s@, ' ', i as int);
            }
            substring_copy(s, 0, i)
        },
        None => {
            proof {
                lemma_first_index_none(s@, ' ');
            }
            String::from_str(s)
        },
    }
}

/// Every `#n` in `s` replaced by a newline, left to right; the inverse of the
/// loophole a line-framed client uses to send multi-line script text.
pub open spec fn unhash_newlines(s: Seq<char>) -> Seq<char>
    decreases s.len(),
{
    if s.len() == 0 {
        Seq::<char>::empty()
    } else if s.len() >= 2 && s[0] == '#' && s[1] == 'n' {
        seq!['\n'] + unhash_newlines(s.subrange(2, s.len() as int))
    } else {
        seq![s[0]] + unhash_newlines(s.drop_first())
    }
}

pub fn unhash_newlines_exec(s: &str) -> (r: String)
    ensures
        r@ == unhash_newlines(s@),
{
    proof {
        reveal_strlit("\n");
    }
    let len = s.unicode_len();
    let mut out = String::new();
    proof {
        assert(s@.subrange(0, len as int) =~= s@);
    }
    let mut i: usize = 0;
    while i < len
        invariant
            i <= len,
            len == s@.len(),
            unhash_newlines(s@) == out@ + unhash_newlines(s@.subrange(i as int, len as int)),
        decreases len - i,
    {
        let ghost pre = out@;
        let ghost tail = s@.subrange(i as int, len as int);
        if i + 1 < len && s.get_char(i) == '#' && s.get_char(i + 1) == 'n' {
            out.append("\n");
            proof {
                reveal_strlit("\n");
                assert(tail[0] == '#' && tail[1] == 'n');
                assert(tail.subrange(2, tail.len() as int) =~= s@.subrange(
                    i + 2 as int,
                    len as int,
                ));
                assert(unhash_newlines(tail) == seq!['\n'] + unhash_newlines(
                    s@.subrange(i + 2 as int, len as int),
                ));
                assert(out@ =~= pre + seq!['\n']);
                assert(pre + unhash_newlines(tail) =~= out@ + unhash_newlines(
                    s@.subrange(i + 2 as int, len as int),
                ));
            }
            i += 2;
        } else {
            let piece = s.substring_char(i, i + 1);
            out.append(piece);
            proof {
                assert(tail[0] == s@[i as int]);
                assert(tail.drop_first() =~= s@.subrange(i + 1 as int, len as int));
                assert(unhash_newlines(tail) == seq![tail[0]] + unhash_newlines(
                    s@.subrange(i + 1 as int, len as int),
                ));
                assert(piece@ =~= seq![s@[i as int]]);
                assert(out@ =~= pre + seq![tail[0]]);
                assert(pre + unhash_newlines(tail) =~= out@ + unhash_newlines(
                    s@.subrange(i + 1 as int, len as int),
                ));
            }
            i += 1;
        }
    }
    proof {
        assert(s@.subrange(len as int, len as int) =~= Seq::<char>::empty());
        assert(unhash_newlines(Seq::<char>::empty()) == Seq::<char>::empty());
        assert(unhash_newlines(s@) =~= out@);
    }
    out
}

} // verus!
