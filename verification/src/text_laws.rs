//! What texts, numerals, places in bytes and paths are, said by what can be done with them.
use vstd::prelude::*;
use vstd::utf8::encode_utf8;

use crate::bytes::{
    byte_len, byte_place, can_truncate, cuts, inserted_at, removed_at, truncated, width,
};
use crate::paths::{
    at_or_below, counting_parts, inside, is_expansion, lies_below, rooted, same_place,
};
use crate::settings::{config_place, joined, settings_in, Platform};
use crate::text::{
    decimal, has_part, occurrences, padded, padded_left, part_at, repeated, signed_decimal, split,
    text_le, trim_end,
};
use crate::ui::types::SortMode;

verus! {

/// The number that a numeral stands for, digit by digit.
pub open spec fn value_of(numeral: Seq<char>) -> nat
    decreases numeral.len(),
{
    if numeral.len() == 0 {
        0
    } else {
        (10 * value_of(numeral.drop_last()) + (numeral.last() as int - '0' as int)) as nat
    }
}

/// A numeral reads back as the number that it was written for. It holds digits only, and does not
/// start with a zero unless that is all of it.
pub proof fn law_numeral_reads_back(n: nat)
    ensures
        value_of(decimal(n)) == n,
        decimal(n).len() > 0,
        forall|i: int|
            0 <= i < decimal(n).len() ==> '0' as int <= #[trigger] decimal(n)[i] as int
                && decimal(n)[i] as int <= '9' as int,
        decimal(n).len() > 1 ==> decimal(n)[0] != '0',
    decreases n,
{
    if n < 10 {
        let one = decimal(n);
        assert(one.drop_last() =~= Seq::empty());
        assert(value_of(one.drop_last()) == 0);
    } else {
        law_numeral_reads_back(n / 10);
        let more = decimal(n / 10);
        assert(decimal(n).drop_last() =~= more);
        if more.len() == 1 {
            assert(more.drop_last() =~= Seq::empty());
            assert(value_of(more.drop_last()) == 0);
            assert('0' as int <= more[0] as int);
            assert(value_of(more) == more[0] as int - '0' as int);
        }
        assert(decimal(n)[0] == more[0]);
    }
}

/// A signed numeral is the numeral of the amount, with a minus sign in front where the number is
/// negative.
pub proof fn law_signed_numeral(n: int)
    ensures
        n >= 0 ==> value_of(signed_decimal(n)) == n && signed_decimal(n)[0] != '-',
        n < 0 ==> signed_decimal(n)[0] == '-' && value_of(signed_decimal(n).skip(1)) == -n,
{
    if n >= 0 {
        law_numeral_reads_back(n as nat);
        assert('0' as int <= decimal(n as nat)[0] as int);
    } else {
        law_numeral_reads_back((-n) as nat);
        assert(signed_decimal(n).skip(1) =~= decimal((-n) as nat));
    }
}

/// Some texts with a separator between each two.
pub open spec fn strung(parts: Seq<Seq<char>>, sep: char) -> Seq<char>
    decreases parts.len(),
{
    if parts.len() == 0 {
        Seq::empty()
    } else if parts.len() == 1 {
        parts[0]
    } else {
        strung(parts.drop_last(), sep).push(sep) + parts.last()
    }
}

/// The pieces of a text, with the separator between them, are the text; none of them holds the
/// separator, and there is at least one.
pub proof fn law_pieces_make_the_text(s: Seq<char>, sep: char)
    ensures
        strung(split(s, sep), sep) == s,
        split(s, sep).len() >= 1,
        forall|i: int| 0 <= i < split(s, sep).len() ==> !(#[trigger] split(s, sep)[i]).contains(sep),
    decreases s.len(),
{
    let parts = split(s, sep);
    if s.len() == 0 {
        assert(parts[0] =~= s);
    } else {
        let before = split(s.drop_last(), sep);
        law_pieces_make_the_text(s.drop_last(), sep);
        assert(s.drop_last().push(s.last()) =~= s);
        if s.last() == sep {
            assert(parts.drop_last() =~= before);
            assert(strung(parts, sep) =~= s);
        } else {
            assert(parts.drop_last() =~= before.drop_last());
            assert(parts.last() == before.last().push(s.last()));
            if before.len() > 1 {
                assert(strung(parts, sep) =~= strung(before, sep).push(s.last()));
            } else {
                assert(strung(parts, sep) =~= strung(before, sep).push(s.last()));
            }
            assert forall|i: int| 0 <= i < parts.len() implies !(#[trigger] parts[i]).contains(
                sep,
            ) by {
                if i < before.len() - 1 {
                    assert(parts[i] == before[i]);
                } else {
                    let last = before[before.len() - 1];
                    assert(!last.contains(sep));
                    if parts[i].contains(sep) {
                        let k = choose|k: int| 0 <= k < parts[i].len() && parts[i][k] == sep;
                        assert(last[k] == sep);
                    }
                }
            }
        }
    }
}

/// A text without the run of a character at its end goes on with that character only, and does not
/// end with it.
pub proof fn law_end_is_trimmed(s: Seq<char>, c: char)
    ensures
        trim_end(s, c).len() <= s.len(),
        trim_end(s, c) == s.take(trim_end(s, c).len() as int),
        forall|i: int| trim_end(s, c).len() <= i < s.len() ==> #[trigger] s[i] == c,
        trim_end(s, c).len() > 0 ==> trim_end(s, c).last() != c,
    decreases s.len(),
{
    if s.len() > 0 && s.last() == c {
        let rest = s.drop_last();
        law_end_is_trimmed(rest, c);
        let n = trim_end(s, c).len() as int;
        assert(s.take(n) =~= rest.take(n));
        assert forall|i: int| n <= i < s.len() implies #[trigger] s[i] == c by {
            if i < rest.len() {
                assert(rest[i] == c);
            }
        }
    } else {
        assert(s.take(s.len() as int) =~= s);
    }
}

/// A part stands in a text that is something, the part, and something more.
pub proof fn law_part_of_text(before: Seq<char>, part: Seq<char>, behind: Seq<char>)
    ensures
        has_part(before + part + behind, part),
{
    let s = before + part + behind;
    let i = before.len() as int;
    assert(s.subrange(i, i + part.len()) =~= part);
    assert(part_at(s, part, i));
}

/// Where a text has a part, it is something, the part, and something more.
pub proof fn law_text_around_part(s: Seq<char>, part: Seq<char>) -> (around: (Seq<char>, Seq<char>))
    requires
        has_part(s, part),
    ensures
        s == around.0 + part + around.1,
{
    let i = choose|i: int| #[trigger] part_at(s, part, i);
    let a = s.take(i);
    let b = s.skip(i + part.len());
    assert(s =~= a + s.subrange(i, i + part.len()) + b);
    (a, b)
}

/// A character occurs in two texts together as often as in each, once in itself, and in nothing
/// else.
pub proof fn law_occurrences_add_up(a: Seq<char>, b: Seq<char>, x: char, c: char)
    ensures
        occurrences(a + b, c) == occurrences(a, c) + occurrences(b, c),
        occurrences(seq![x], c) == if x == c {
            1nat
        } else {
            0
        },
    decreases b.len(),
{
    assert(seq![x].drop_last() =~= Seq::empty());
    assert(occurrences(seq![x].drop_last(), c) == 0);
    if b.len() == 0 {
        assert(a + b =~= a);
    } else {
        assert((a + b).drop_last() =~= a + b.drop_last());
        law_occurrences_add_up(a, b.drop_last(), x, c);
    }
}

/// One text comes before another where it has the smaller character at the first difference, and
/// where it runs out first; a text does not come before what it is longer than.
pub proof fn law_first_difference_decides(
    same: Seq<char>,
    x: char,
    y: char,
    a: Seq<char>,
    b: Seq<char>,
)
    requires
        (x as u32) < (y as u32),
    ensures
        text_le(same.push(x) + a, same.push(y) + b),
        !text_le(same.push(y) + b, same.push(x) + a),
        text_le(same, same.push(x) + a),
        !text_le(same.push(x) + a, same),
    decreases same.len(),
{
    let (p, q) = (same.push(x) + a, same.push(y) + b);
    if same.len() > 0 {
        let rest = same.drop_first();
        law_first_difference_decides(rest, x, y, a, b);
        assert(p.drop_first() =~= rest.push(x) + a);
        assert(q.drop_first() =~= rest.push(y) + b);
    } else {
        assert(p[0] == x && q[0] == y);
    }
}

/// A text that is filled up to a width keeps its characters, and the rest is blanks; one that is
/// as long or longer stays as it is.
pub proof fn law_filled_with_blanks(s: Seq<char>, n: nat)
    ensures
        padded(s, n).len() == if s.len() < n {
            n
        } else {
            s.len()
        },
        padded(s, n).take(s.len() as int) == s,
        forall|i: int| s.len() <= i < padded(s, n).len() ==> #[trigger] padded(s, n)[i] == ' ',
        padded_left(s, n).len() == padded(s, n).len(),
        padded_left(s, n).skip(padded_left(s, n).len() - s.len()) == s,
        forall|i: int|
            0 <= i < padded_left(s, n).len() - s.len() ==> #[trigger] padded_left(s, n)[i] == ' ',
{
    assert(padded(s, n).take(s.len() as int) =~= s);
    assert(padded_left(s, n).skip(padded_left(s, n).len() - s.len()) =~= s);
}

/// So many copies of a character.
pub proof fn law_copies(c: char, n: nat)
    ensures
        repeated(c, n).len() == n,
        forall|i: int| 0 <= i < n ==> #[trigger] repeated(c, n)[i] == c,
{
}

proof fn lemma_bytes_add_up(a: Seq<char>, b: Seq<char>)
    ensures
        encode_utf8(a + b).len() == encode_utf8(a).len() + encode_utf8(b).len(),
    decreases a.len(),
{
    if a.len() == 0 {
        assert(a + b =~= b);
    } else {
        assert((a + b).drop_first() =~= a.drop_first() + b);
        lemma_bytes_add_up(a.drop_first(), b);
    }
}

proof fn lemma_some_bytes(c: char)
    ensures
        width(c) >= 1,
        encode_utf8(seq![c]).len() == width(c),
{
    vstd::utf8::char_is_scalar(c);
    assert(seq![c].drop_first() =~= Seq::empty());
    assert(encode_utf8(Seq::<char>::empty()).len() == 0);
}

/// The place behind some characters is as many bytes from the start as they take, and a place in
/// bytes is a place between characters only there.
pub proof fn law_place_in_bytes(a: Seq<char>, b: Seq<char>, at: nat)
    ensures
        byte_place(a + b, encode_utf8(a).len()) == Some(a.len()),
        byte_place(a + b, at) is Some ==> byte_place(a + b, at)->0 <= (a + b).len() && encode_utf8(
            (a + b).take(byte_place(a + b, at)->0 as int),
        ).len() == at,
    decreases a.len(),
{
    let s = a + b;
    if a.len() > 0 {
        let rest = a.drop_first();
        lemma_some_bytes(a[0]);
        law_place_in_bytes(rest, b, 0);
        assert(s.drop_first() =~= rest + b);
        assert(s[0] == a[0]);
        lemma_bytes_add_up(seq![a[0]], rest);
        assert(a =~= seq![a[0]] + rest);
    } else {
        assert(encode_utf8(a).len() == 0);
    }
    lemma_place_len(s, at);
}

proof fn lemma_place_len(s: Seq<char>, at: nat)
    ensures
        byte_place(s, at) is Some ==> byte_place(s, at)->0 <= s.len() && encode_utf8(
            s.take(byte_place(s, at)->0 as int),
        ).len() == at,
    decreases s.len(),
{
    if byte_place(s, at) is Some {
        let k = byte_place(s, at)->0 as int;
        if at == 0 {
            assert(s.take(0) =~= Seq::empty());
        } else {
            lemma_place_len(s.drop_first(), (at - width(s[0])) as nat);
            assert(s.take(k).drop_first() =~= s.drop_first().take(k - 1));
            lemma_some_bytes(s[0]);
        }
    }
}

/// A character is put in, and taken out, behind as many bytes as are said, and the rest stays; a
/// text takes as many bytes as its characters together.
pub proof fn law_changed_at_a_place(a: Seq<char>, c: char, b: Seq<char>)
    ensures
        inserted_at(a + b, encode_utf8(a).len(), c) == a + seq![c] + b,
        removed_at(a + seq![c] + b, encode_utf8(a).len()) == a + b,
        byte_len(a) == encode_utf8(a).len(),
        byte_len(a + seq![c]) == byte_len(a) + width(c),
{
    law_place_in_bytes(a, b, 0);
    law_place_in_bytes(a, seq![c] + b, 0);
    assert(a + seq![c] + b =~= a + (seq![c] + b));
    assert((a + b).take(a.len() as int) =~= a);
    assert((a + b).skip(a.len() as int) =~= b);
    assert(inserted_at(a + b, encode_utf8(a).len(), c) =~= a + seq![c] + b);
    assert(removed_at(a + seq![c] + b, encode_utf8(a).len()) =~= a + b);
    lemma_bytes_add_up(a, seq![c]);
    lemma_some_bytes(c);
}

/// A path that fits is not shortened.
pub proof fn law_fitting_path_stays(path: Seq<char>, max: nat)
    requires
        encode_utf8(path).len() <= max,
    ensures
        truncated(path, max) == path,
{
}

/// A path of at most three parts that is too long is cut at its start: dots, and then as much of its
/// end as there is room for.
pub proof fn law_short_path_keeps_its_end(start: Seq<char>, end: Seq<char>, max: nat)
    requires
        encode_utf8(start + end).len() > max,
        max >= 3,
        encode_utf8(end).len() == max - 3,
        occurrences(start + end, '/') <= 2,
    ensures
        truncated(start + end, max) == "..."@ + end,
{
    let path = start + end;
    lemma_bytes_add_up(start, end);
    lemma_parts_counted(path, '/');
    law_place_in_bytes(start, end, 0);
    law_place_in_bytes(Seq::empty(), path, 0);
    assert(Seq::<char>::empty() + path =~= path);
    assert(path.take(0) =~= Seq::empty());
    assert(path.skip(start.len() as int) =~= end);
    assert(truncated(path, max) =~= "..."@ + end);
}

proof fn lemma_parts_counted(s: Seq<char>, sep: char)
    ensures
        split(s, sep).len() == occurrences(s, sep) + 1,
    decreases s.len(),
{
    if s.len() > 0 {
        lemma_parts_counted(s.drop_last(), sep);
    }
}

/// A path of four parts or more that is too long keeps its first two and its last two parts, where
/// these fit with what stands for the rest.
pub proof fn law_long_path_keeps_whole_parts(path: Seq<char>, max: nat)
    requires
        encode_utf8(path).len() > max,
        occurrences(path, '/') >= 3,
    ensures
        ({
            let parts = split(path, '/');
            let n = parts.len() as int;
            let ends = parts[0] + "/"@ + parts[1] + "/.../"@ + parts[n - 2] + "/"@ + parts[n - 1];
            &&& n == occurrences(path, '/') + 1
            &&& encode_utf8(ends).len() <= max ==> truncated(path, max) == ends
        }),
{
    lemma_parts_counted(path, '/');
}

/// A path of four parts or more whose outer parts do not fit is cut in its middle: as much of its
/// start as of its end is kept, with dots between.
pub proof fn law_long_path_keeps_both_ends(
    start: Seq<char>,
    middle: Seq<char>,
    end: Seq<char>,
    max: nat,
)
    requires
        encode_utf8(start + middle + end).len() > max,
        occurrences(start + middle + end, '/') >= 3,
        max >= 4,
        encode_utf8(start).len() == max / 2 - 2,
        encode_utf8(end).len() == max / 2 - 2,
        ({
            let parts = split(start + middle + end, '/');
            let n = parts.len() as int;
            encode_utf8(
                parts[0] + "/"@ + parts[1] + "/.../"@ + parts[n - 2] + "/"@ + parts[n - 1],
            ).len() > max
        }),
    ensures
        truncated(start + middle + end, max) == start + "..."@ + end,
{
    let path = start + middle + end;
    lemma_parts_counted(path, '/');
    lemma_bytes_add_up(start + middle, end);
    law_place_in_bytes(start, middle + end, 0);
    law_place_in_bytes(start + middle, end, 0);
    assert(start + (middle + end) =~= path);
    let half = encode_utf8(start).len();
    assert(encode_utf8(start + middle).len() == encode_utf8(path).len() - half);
    assert(path.take(start.len() as int) =~= start);
    assert(path.skip((start + middle).len() as int) =~= end);
    assert(cuts(path, max) == Some((half, (encode_utf8(path).len() - half) as nat)));
}

/// Below a directory lies what goes on after its path and a slash, and below the root of the file
/// system everything else that starts there; nothing lies below itself.
pub proof fn law_below_a_directory(dir: Seq<char>, rest: Seq<char>, path: Seq<char>)
    ensures
        dir != "/"@ ==> lies_below(dir.push('/') + rest, dir),
        rest.len() > 0 ==> lies_below(seq!['/'] + rest, "/"@),
        !lies_below(dir, dir),
        at_or_below(dir, dir),
        at_or_below(path, dir) <==> path == dir || lies_below(path, dir),
        lies_below(path, dir) && dir != "/"@ ==> path.len() > dir.len() && path.take(
            dir.len() as int,
        ) == dir && path[dir.len() as int] == '/',
        lies_below(path, "/"@) ==> path.len() > 1 && path[0] == '/',
{
    reveal_strlit("/");
    let root = seq!['/'];
    assert("/"@ =~= root);
    let start = dir.push('/');
    let p = start + rest;
    assert(p.subrange(0, start.len() as int) =~= start);
    if dir != "/"@ {
        assert(inside(dir) == start);
        assert(p.len() > dir.len());
        if lies_below(path, dir) {
            assert(path.subrange(0, start.len() as int) == start);
            assert(path.take(dir.len() as int) =~= dir) by {
                assert forall|k: int| 0 <= k < dir.len() implies path[k] == dir[k] by {
                    assert(start[k] == path.subrange(0, start.len() as int)[k]);
                }
            }
            assert(start[dir.len() as int] == path.subrange(0, start.len() as int)[dir.len() as int]);
        }
    }
    let r = root + rest;
    assert(r.subrange(0, 1) =~= root);
    if rest.len() > 0 {
        assert(r.len() > 1);
    }
    if lies_below(path, "/"@) {
        assert(path.subrange(0, 1) == root);
        assert(path.subrange(0, 1)[0] == path[0]);
        if path.len() == 1 {
            assert(path =~= root);
        }
    }
}

/// The home directory stands in for `~`, alone or before a slash, where it is known; every other
/// path stays as it is.
pub proof fn law_home_stands_in(path: Seq<char>, home: Seq<char>, expanded: Seq<char>, c: char)
    ensures
        is_expansion(seq!['~'], Some(home), expanded) ==> expanded == home,
        is_expansion(seq!['~', '/'] + path, Some(home), expanded) ==> expanded == home + seq!['/']
            + path,
        c != '/' && c != '\\' && is_expansion(seq!['~', c] + path, Some(home), expanded) ==> expanded
            == seq!['~', c] + path,
        path.len() > 0 && path[0] != '~' && is_expansion(path, Some(home), expanded) ==> expanded
            == path,
        is_expansion(path, None, expanded) ==> expanded == path,
{
    assert(seq!['~'].skip(1) =~= Seq::<char>::empty());
    assert(home + Seq::<char>::empty() =~= home);
    let p = seq!['~', '/'] + path;
    assert(p[0] == '~' && p[1] == '/');
    assert(home + p.skip(1) =~= home + seq!['/'] + path);
    let q = seq!['~', c] + path;
    assert(q[0] == '~' && q[1] == c);
}

/// That two paths are written for one place is an equivalence, and a slash at the end makes no
/// difference.
pub proof fn law_one_place(a: Seq<char>, b: Seq<char>, c: Seq<char>)
    ensures
        same_place(a, a),
        same_place(a, b) ==> same_place(b, a),
        same_place(a, b) && same_place(b, c) ==> same_place(a, c),
        a.len() > 0 ==> same_place(a, a.push('/')),
        rooted(a) != rooted(b) ==> !same_place(a, b),
        rooted(a) <==> a.len() > 0 && a[0] == '/',
{
    let t = a.push('/');
    assert(t.drop_last() =~= a);
    let parts = split(a, '/');
    assert(split(t, '/') == parts.push(Seq::empty()));
    assert(parts.push(Seq::empty()).drop_last() =~= parts);
}

/// Whether a path starts at the root and every part after that is there and is no single dot.
pub open spec fn plain_path(path: Seq<char>) -> bool {
    &&& path.len() > 0
    &&& path[0] == '/'
    &&& forall|i: int|
        1 <= i < split(path, '/').len() ==> (#[trigger] split(path, '/')[i]).len() > 0 && split(
            path,
            '/',
        )[i] != "."@
}

proof fn lemma_all_count(parts: Seq<Seq<char>>)
    requires
        parts.len() >= 1,
        parts[0].len() == 0,
        forall|i: int| 1 <= i < parts.len() ==> (#[trigger] parts[i]).len() > 0 && parts[i] != "."@,
    ensures
        counting_parts(parts) == parts.skip(1),
    decreases parts.len(),
{
    let rest = parts.drop_last();
    if parts.len() == 1 {
        assert(counting_parts(rest) =~= Seq::empty());
        assert(parts.skip(1) =~= Seq::empty());
    } else {
        assert forall|i: int| 1 <= i < rest.len() implies (#[trigger] rest[i]).len() > 0 && rest[i]
            != "."@ by {
            assert(rest[i] == parts[i]);
        }
        lemma_all_count(rest);
        let n = parts.len() - 1;
        assert(parts[n].len() > 0);
        assert(parts.skip(1) =~= rest.skip(1).push(parts.last()));
    }
}

proof fn lemma_first_piece(s: Seq<char>, sep: char)
    requires
        s.len() > 0,
        s[0] == sep,
    ensures
        split(s, sep).len() >= 2,
        split(s, sep)[0].len() == 0,
    decreases s.len(),
{
    let before = split(s.drop_last(), sep);
    if s.len() == 1 {
        assert(s.drop_last() =~= Seq::empty());
    } else {
        lemma_first_piece(s.drop_last(), sep);
        assert(split(s, sep)[0] == before[0]);
    }
}

/// Two plain paths are written for one place only where they are the same.
pub proof fn law_plain_paths_are_one_place_each(a: Seq<char>, b: Seq<char>)
    requires
        plain_path(a),
        plain_path(b),
    ensures
        same_place(a, b) <==> a == b,
{
    let (x, y) = (split(a, '/'), split(b, '/'));
    lemma_first_piece(a, '/');
    lemma_first_piece(b, '/');
    lemma_all_count(x);
    lemma_all_count(y);
    law_pieces_make_the_text(a, '/');
    law_pieces_make_the_text(b, '/');
    if same_place(a, b) {
        assert(x =~= y) by {
            assert(x.skip(1) == y.skip(1));
            assert(x[0] =~= y[0]);
            assert(x.len() == x.skip(1).len() + 1);
            assert forall|i: int| 0 <= i < x.len() implies x[i] == y[i] by {
                if i > 0 {
                    assert(x.skip(1)[i - 1] == y.skip(1)[i - 1]);
                }
            }
        }
    }
}

/// What a settings file leaves out has its default: files by path, scans by size, folded from depth
/// one on. What it holds is taken over.
pub proof fn law_settings_left_out(
    file_tree_sort: Option<SortMode>,
    scan_list_sort: Option<SortMode>,
    auto_fold_depth: Option<u32>,
)
    ensures
        ({
            let ui = settings_in(file_tree_sort, scan_list_sort, auto_fold_depth).ui;
            &&& file_tree_sort is None ==> ui.file_tree_sort == SortMode::ByPath
            &&& file_tree_sort is Some ==> Some(ui.file_tree_sort) == file_tree_sort
            &&& scan_list_sort is None ==> ui.scan_list_sort == SortMode::BySize
            &&& scan_list_sort is Some ==> Some(ui.scan_list_sort) == scan_list_sort
            &&& auto_fold_depth is None ==> ui.auto_fold_depth == 1
            &&& auto_fold_depth is Some ==> Some(ui.auto_fold_depth) == auto_fold_depth
        }),
{
}

/// What the settings file and the screen call a way to sort.
pub proof fn law_names_of_sorting(mode: SortMode)
    ensures
        mode.keyword() == if mode == SortMode::BySize {
            "by_size"@
        } else {
            "by_path"@
        },
        mode.title() == if mode == SortMode::BySize {
            "By Size (Descending)"@
        } else {
            "Alphabetical (by path)"@
        },
{
}

/// A name inside a directory stands behind the directory's path and one slash.
pub proof fn law_name_in_directory(dir: Seq<char>, name: Seq<char>)
    ensures
        dir.len() > 0 && dir.last() != '/' ==> joined(dir, name) == dir + seq!['/'] + name,
        dir.len() > 0 && dir.last() == '/' ==> joined(dir, name) == dir + name,
        joined(Seq::empty(), name) == name,
{
    assert(dir.push('/') =~= dir + seq!['/']);
    assert(Seq::<char>::empty() + name =~= name);
}

/// Settings are kept in `.config` in the home directory on macOS and Linux, on Linux in
/// `XDG_CONFIG_HOME` where that is set, and on Windows in `APPDATA`.
pub proof fn law_place_of_settings(
    home: Seq<char>,
    xdg: Option<Seq<char>>,
    appdata: Option<Seq<char>>,
)
    requires
        home.len() > 0,
        home.last() != '/',
    ensures
        config_place(Platform::Macos, Some(home), xdg, appdata) == Some(home + "/.config"@),
        config_place(Platform::Linux, Some(home), None, appdata) == Some(home + "/.config"@),
        xdg is Some ==> config_place(Platform::Linux, Some(home), xdg, appdata) == xdg,
        config_place(Platform::Windows, Some(home), xdg, appdata) == appdata,
        config_place(Platform::Macos, None, xdg, appdata) is None,
        config_place(Platform::Linux, None, None, appdata) is None,
        config_place(Platform::Other, Some(home), xdg, appdata) is None,
{
    reveal_strlit("/.config");
    reveal_strlit(".config");
    assert(home.push('/') + ".config"@ =~= home + "/.config"@);
}

proof fn lemma_pieces_of_both(x: Seq<char>, y: Seq<char>, sep: char)
    ensures
        split(x + seq![sep] + y, sep) == split(x, sep) + split(y, sep),
    decreases y.len(),
{
    let s = x + seq![sep] + y;
    if y.len() == 0 {
        assert(s =~= x.push(sep));
        assert(s.drop_last() =~= x);
        assert(split(s, sep) =~= split(x, sep) + split(y, sep));
    } else {
        let z = y.drop_last();
        lemma_pieces_of_both(x, z, sep);
        law_pieces_make_the_text(z, sep);
        assert(s.drop_last() =~= x + seq![sep] + z);
        let (p, q) = (split(x, sep), split(z, sep));
        assert((p + q).drop_last() =~= p + q.drop_last());
        assert(split(s, sep) =~= p + split(y, sep));
    }
}

proof fn lemma_part_left_out(p: Seq<Seq<char>>, m: Seq<char>, q: Seq<Seq<char>>)
    requires
        p.len() > 0,
        m.len() == 0 || m == "."@,
    ensures
        counting_parts(p + seq![m] + q) == counting_parts(p + q),
    decreases q.len(),
{
    let s = p + seq![m] + q;
    if q.len() == 0 {
        assert(s.drop_last() =~= p);
        assert(s.last() == m);
        assert(p + q =~= p);
    } else {
        lemma_part_left_out(p, m, q.drop_last());
        assert(s.drop_last() =~= p + seq![m] + q.drop_last());
        assert((p + q).drop_last() =~= p + q.drop_last());
    }
}

/// Inside a path, a part that is a single dot makes no difference, nor does a second slash.
pub proof fn law_empty_parts_make_no_difference(a: Seq<char>, b: Seq<char>)
    requires
        a.len() > 0,
    ensures
        same_place(a + seq!['/', '.', '/'] + b, a + seq!['/'] + b),
        same_place(a + seq!['/', '/'] + b, a + seq!['/'] + b),
{
    reveal_strlit(".");
    let dot = seq!['.'];
    assert("."@ =~= dot);
    let none = Seq::<char>::empty();
    let (p, q) = (split(a, '/'), split(b, '/'));
    law_pieces_make_the_text(a, '/');
    lemma_pieces_of_both(a, b, '/');
    lemma_pieces_of_both(dot, b, '/');
    lemma_pieces_of_both(none, b, '/');
    lemma_pieces_of_both(a, dot + seq!['/'] + b, '/');
    lemma_pieces_of_both(a, none + seq!['/'] + b, '/');
    assert(split(none, '/') =~= seq![none]);
    assert(dot.drop_last() =~= none);
    assert(none.push('.') =~= dot);
    assert(split(dot, '/') =~= seq![dot]);
    assert(a + seq!['/', '.', '/'] + b =~= a + seq!['/'] + (dot + seq!['/'] + b));
    assert(a + seq!['/', '/'] + b =~= a + seq!['/'] + (none + seq!['/'] + b));
    assert(p + (seq![dot] + q) =~= p + seq![dot] + q);
    assert(p + (seq![none] + q) =~= p + seq![none] + q);
    lemma_part_left_out(p, dot, q);
    lemma_part_left_out(p, none, q);
}

proof fn lemma_first_counts(parts: Seq<Seq<char>>)
    requires
        parts.len() > 0,
        parts[0].len() > 0,
    ensures
        counting_parts(parts).len() > 0,
        counting_parts(parts)[0] == parts[0],
    decreases parts.len(),
{
    if parts.len() > 1 {
        lemma_first_counts(parts.drop_last());
    } else {
        assert(counting_parts(parts.drop_last()) == Seq::<Seq<char>>::empty());
    }
}

/// At the start of a path that is not rooted, a single dot does make a difference, unless one stands
/// there anyway.
pub proof fn law_first_dot_counts(first: Seq<char>, rest: Seq<char>)
    requires
        first.len() > 0,
        !first.contains('/'),
        first != seq!['.'],
    ensures
        !same_place(seq!['.', '/'] + first + seq!['/'] + rest, first + seq!['/'] + rest),
{
    let dot = seq!['.'];
    let a = first + seq!['/'] + rest;
    lemma_pieces_of_both(first, rest, '/');
    lemma_pieces_of_both(dot, a, '/');
    lemma_one_piece(first, '/');
    lemma_one_piece(dot, '/');
    assert(seq!['.', '/'] + first + seq!['/'] + rest =~= dot + seq!['/'] + a);
    let x = split(a, '/');
    let y = split(dot + seq!['/'] + a, '/');
    assert(x[0] == first);
    assert(y[0] == dot);
    lemma_first_counts(x);
    lemma_first_counts(y);
}

proof fn lemma_one_piece(s: Seq<char>, sep: char)
    requires
        !s.contains(sep),
    ensures
        split(s, sep) == seq![s],
    decreases s.len(),
{
    if s.len() > 0 {
        let t = s.drop_last();
        assert forall|i: int| 0 <= i < t.len() implies t[i] != sep by {
            assert(s.contains(s[i]));
        }
        assert(!t.contains(sep));
        lemma_one_piece(t, sep);
        assert(s.contains(s.last()));
        assert(t.push(s.last()) =~= s);
        assert(split(s, sep) =~= seq![s]);
    } else {
        assert(s =~= Seq::empty());
        assert(split(s, sep) =~= seq![s]);
    }
}

proof fn lemma_one_byte_each(s: Seq<char>, b: nat)
    requires
        forall|i: int| 0 <= i < s.len() ==> (#[trigger] s[i] as u32) < 128,
        b <= s.len(),
    ensures
        byte_place(s, b) == Some(b),
        encode_utf8(s).len() == s.len(),
    decreases s.len(),
{
    if s.len() > 0 {
        let rest = s.drop_first();
        vstd::utf8::char_is_scalar(s[0]);
        lemma_some_bytes(s[0]);
        assert(width(s[0]) == 1);
        assert forall|i: int| 0 <= i < rest.len() implies (#[trigger] rest[i] as u32) < 128 by {
            assert(rest[i] == s[i + 1]);
        }
        lemma_one_byte_each(
            rest,
            if b > 0 {
                (b - 1) as nat
            } else {
                0
            },
        );
        lemma_bytes_add_up(seq![s[0]], rest);
        assert(s =~= seq![s[0]] + rest);
    } else {
        assert(encode_utf8(s).len() == 0);
    }
}

/// A path that fits can be shortened, and so can every path in which each character takes one byte.
pub proof fn law_plain_text_can_be_cut(path: Seq<char>, max: nat)
    ensures
        encode_utf8(path).len() <= max ==> can_truncate(path, max),
        (forall|i: int| 0 <= i < path.len() ==> (#[trigger] path[i] as u32) < 128) ==> can_truncate(
            path,
            max,
        ),
{
    if forall|i: int| 0 <= i < path.len() ==> (#[trigger] path[i] as u32) < 128 {
        lemma_one_byte_each(path, 0);
        match cuts(path, max) {
            Some((a, b)) => {
                assert(a <= path.len() && b <= path.len());
                lemma_one_byte_each(path, a);
                lemma_one_byte_each(path, b);
            },
            None => {},
        }
    }
}

} // verus!
