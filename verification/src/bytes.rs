//! Texts by their places in bytes.
use vstd::prelude::*;
use vstd::string::*;
use vstd::utf8::{encode_scalar, encode_utf8};

use crate::text::{piece, split, split_text, texts, to_chars};

verus! {

/// How many bytes a text takes.
pub open spec fn byte_len(s: Seq<char>) -> nat {
    encode_utf8(s).len()
}

/// How many bytes a character takes.
pub open spec fn width(c: char) -> nat {
    encode_scalar(c as u32).len()
}

/// Which character starts at byte `b`, where one does or the text ends there.
pub open spec fn byte_place(s: Seq<char>, b: nat) -> Option<nat>
    decreases s.len(),
{
    if b == 0 {
        Some(0)
    } else if s.len() == 0 || b < width(s[0]) {
        None
    } else {
        match byte_place(s.drop_first(), (b - width(s[0])) as nat) {
            Some(k) => Some(k + 1),
            None => None,
        }
    }
}

/// How many bytes a character takes.
pub fn char_width(c: char) -> (w: usize)
    ensures
        w == width(c),
        1 <= w <= 4,
{
    let v: u32 = c as u32;
    proof {
        vstd::utf8::char_is_scalar(c);
    }
    if v <= 0x7f {
        1
    } else if v <= 0x7ff {
        2
    } else if v <= 0xffff {
        3
    } else {
        4
    }
}

/// How many bytes a text takes.
pub fn text_bytes(s: &str) -> (n: usize)
    ensures
        n == byte_len(s@),
{
    s.as_bytes().len()
}

/// The character that starts at byte `b`.
pub fn place_at(chars: &Vec<char>, b: usize) -> (k: Option<usize>)
    ensures
        match k {
            Some(k) => byte_place(chars@, b as nat) == Some(k as nat) && k <= chars@.len(),
            None => byte_place(chars@, b as nat) is None,
        },
{
    let mut i: usize = 0;
    let mut left: usize = b;
    assert(chars@.skip(0) =~= chars@);
    while left > 0
        invariant
            i <= chars@.len(),
            byte_place(chars@, b as nat) == match byte_place(chars@.skip(i as int), left as nat) {
                Some(k) => Some(k + i as nat),
                None => None,
            },
        decreases left,
    {
        if i >= chars.len() {
            return None;
        }
        let w: usize = char_width(chars[i]);
        assert(chars@.skip(i as int)[0] == chars@[i as int]);
        if left < w {
            return None;
        }
        assert(chars@.skip(i as int).drop_first() =~= chars@.skip(i + 1));
        left = left - w;
        i = i + 1;
    }
    Some(i)
}

/// The text with `c` put in where byte `b` is.
pub open spec fn inserted_at(s: Seq<char>, b: nat, c: char) -> Seq<char> {
    let k = byte_place(s, b)->0 as int;
    s.take(k).push(c) + s.skip(k)
}

/// The text without the character that starts at byte `b`.
pub open spec fn removed_at(s: Seq<char>, b: nat) -> Seq<char> {
    s.remove(byte_place(s, b)->0 as int)
}

/// Whether a character starts at byte `b`.
pub open spec fn starts_char(s: Seq<char>, b: nat) -> bool {
    byte_place(s, b) is Some && byte_place(s, b)->0 < s.len()
}

/// The text with `c` put in where byte `b` is.
pub fn insert_char(s: &str, b: usize, c: char) -> (r: String)
    requires
        byte_place(s@, b as nat) is Some,
    ensures
        r@ == inserted_at(s@, b as nat, c),
{
    let chars = to_chars(s);
    let mut r = String::new();
    match place_at(&chars, b) {
        Some(k) => {
            r.append(piece(&chars, 0, k).as_str());
            r.push(c);
            r.append(piece(&chars, k, chars.len()).as_str());
            assert(r@ =~= inserted_at(s@, b as nat, c));
        },
        None => {},
    }
    r
}

/// The text without the character that starts at byte `b`.
pub fn remove_char(s: &str, b: usize) -> (r: String)
    requires
        starts_char(s@, b as nat),
    ensures
        r@ == removed_at(s@, b as nat),
{
    let chars = to_chars(s);
    let mut r = String::new();
    match place_at(&chars, b) {
        Some(k) => {
            r.append(piece(&chars, 0, k).as_str());
            r.append(piece(&chars, k + 1, chars.len()).as_str());
            assert(r@ =~= removed_at(s@, b as nat));
        },
        None => {},
    }
    r
}

/// Whether a character starts at byte `b`, or the text ends there.
pub fn is_place(s: &str, b: usize) -> (ok: bool)
    ensures
        ok == (byte_place(s@, b as nat) is Some),
{
    let chars = to_chars(s);
    match place_at(&chars, b) {
        Some(_) => true,
        None => false,
    }
}

/// Whether a character starts at byte `b`.
pub fn is_char_start(s: &str, b: usize) -> (ok: bool)
    ensures
        ok == starts_char(s@, b as nat),
{
    let chars = to_chars(s);
    match place_at(&chars, b) {
        Some(k) => k < chars.len(),
        None => false,
    }
}

/// `a - b`, but not below zero.
pub open spec fn less(a: nat, b: nat) -> nat {
    if a >= b {
        (a - b) as nat
    } else {
        0
    }
}

/// The first and the last two parts of a path, with what is between left out.
pub open spec fn path_ends(parts: Seq<Seq<char>>) -> Seq<char> {
    parts[0] + "/"@ + parts[1] + "/.../"@ + parts[parts.len() - 2] + "/"@ + parts[parts.len() - 1]
}

/// Where a path is cut when it is shortened to `max` bytes: up to the first byte, and from the
/// second byte on. `None` where nothing is cut inside a part.
pub open spec fn cuts(path: Seq<char>, max: nat) -> Option<(nat, nat)> {
    let n = byte_len(path);
    let parts = split(path, '/');
    if n <= max {
        None
    } else if parts.len() <= 3 {
        Some((0, less(n, less(max, 3))))
    } else if byte_len(path_ends(parts)) <= max {
        None
    } else {
        Some((less(max / 2, 2), less(n, less(max / 2, 2))))
    }
}

/// Whether the cuts fall between characters.
pub open spec fn can_truncate(path: Seq<char>, max: nat) -> bool {
    match cuts(path, max) {
        Some((a, b)) => byte_place(path, a) is Some && byte_place(path, b) is Some,
        None => true,
    }
}

/// A path shortened to `max` bytes: its ends are kept as whole parts where they fit.
pub open spec fn truncated(path: Seq<char>, max: nat) -> Seq<char> {
    match cuts(path, max) {
        Some((a, b)) => path.take(byte_place(path, a)->0 as int) + "..."@ + path.skip(
            byte_place(path, b)->0 as int,
        ),
        None => if byte_len(path) <= max {
            path
        } else {
            path_ends(split(path, '/'))
        },
    }
}

fn ends_text(parts: &Vec<String>) -> (s: String)
    requires
        parts@.len() >= 2,
    ensures
        s@ == path_ends(texts(parts@)),
{
    let n: usize = parts.len();
    let mut s = parts[0].clone();
    s.append("/");
    s.append(parts[1].as_str());
    s.append("/.../");
    s.append(parts[n - 2].as_str());
    s.append("/");
    s.append(parts[n - 1].as_str());
    s
}

fn cuts_of(path: &str, max: usize) -> (r: (Option<(usize, usize)>, String))
    ensures
        match r.0 {
            Some((a, b)) => cuts(path@, max as nat) == Some((a as nat, b as nat)),
            None => {
                &&& cuts(path@, max as nat) is None
                &&& r.1@ == truncated(path@, max as nat)
            },
        },
{
    let n: usize = text_bytes(path);
    if n <= max {
        return (None, path.to_owned());
    }
    let parts = split_text(path, '/');
    let ghost names = split(path@, '/');
    assert(texts(parts@).len() == parts@.len());
    if parts.len() <= 3 {
        let tail: usize = if max >= 3 {
            max - 3
        } else {
            0
        };
        return (Some((0, n - tail)), String::new());
    }
    let ends = ends_text(&parts);
    if text_bytes(ends.as_str()) <= max {
        (None, ends)
    } else {
        let half: usize = if max / 2 >= 2 {
            max / 2 - 2
        } else {
            0
        };
        (Some((half, n - half)), String::new())
    }
}

/// Whether a path can be shortened: no cut falls inside a character.
pub fn truncatable(path: &str, max_len: usize) -> (b: bool)
    ensures
        b == can_truncate(path@, max_len as nat),
{
    let (cuts, _) = cuts_of(path, max_len);
    match cuts {
        Some((a, b)) => is_place(path, a) && is_place(path, b),
        None => true,
    }
}

/// A path shortened to `max_len` bytes: its ends are kept as whole parts where they fit.
pub fn smart_truncate_path(path: &str, max_len: usize) -> (s: String)
    requires
        can_truncate(path@, max_len as nat),
    ensures
        s@ == truncated(path@, max_len as nat),
{
    let (cuts, whole) = cuts_of(path, max_len);
    match cuts {
        Some((a, b)) => {
            let chars = to_chars(path);
            let mut s = String::new();
            match (place_at(&chars, a), place_at(&chars, b)) {
                (Some(j), Some(k)) => {
                    s.append(piece(&chars, 0, j).as_str());
                    s.append("...");
                    s.append(piece(&chars, k, chars.len()).as_str());
                    assert(s@ =~= truncated(path@, max_len as nat));
                },
                _ => {},
            }
            s
        },
        None => whole,
    }
}

proof fn lemma_byte_len_concat(a: Seq<char>, b: Seq<char>)
    ensures
        byte_len(a + b) == byte_len(a) + byte_len(b),
    decreases a.len(),
{
    if a.len() == 0 {
        assert(a + b =~= b);
    } else {
        assert((a + b).drop_first() =~= a.drop_first() + b);
        lemma_byte_len_concat(a.drop_first(), b);
    }
}

proof fn lemma_byte_place_len(s: Seq<char>, b: nat)
    requires
        byte_place(s, b) is Some,
    ensures
        byte_place(s, b)->0 <= s.len(),
        byte_len(s.take(byte_place(s, b)->0 as int)) == b,
    decreases s.len(),
{
    let k = byte_place(s, b)->0 as int;
    if b == 0 {
        assert(s.take(0) =~= Seq::empty());
    } else {
        lemma_byte_place_len(s.drop_first(), (b - width(s[0])) as nat);
        assert(s.take(k).drop_first() =~= s.drop_first().take(k - 1));
    }
}

/// A shortened path takes at most `max` bytes, where there is room for the dots.
pub proof fn law_truncated_fits(path: Seq<char>, max: nat)
    requires
        max >= 3,
        can_truncate(path, max),
    ensures
        byte_len(truncated(path, max)) <= max,
{
    match cuts(path, max) {
        Some((a, b)) => {
            let j = byte_place(path, a)->0 as int;
            let k = byte_place(path, b)->0 as int;
            lemma_byte_place_len(path, a);
            lemma_byte_place_len(path, b);
            assert(path =~= path.take(k) + path.skip(k));
            lemma_byte_len_concat(path.take(k), path.skip(k));
            lemma_byte_len_concat(path.take(j), "..."@);
            lemma_byte_len_concat(path.take(j) + "..."@, path.skip(k));
            reveal_strlit("...");
            assert(vstd::utf8::is_ascii_chars("..."@));
            vstd::utf8::is_ascii_chars_encode_utf8("..."@);
        },
        None => {},
    }
}

} // verus!
