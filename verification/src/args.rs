use vstd::prelude::*;
use vstd::string::StrSliceExecFns;
use crate::paths::opt_chars;

verus! {

/// The pieces of `s` between the occurrences of `sep`, as `str::split` yields
/// them: an empty text gives one empty piece, and two adjacent separators
/// give an empty piece between them.
pub open spec fn split_pieces(s: Seq<char>, sep: char) -> Seq<Seq<char>>
    decreases s.len(),
{
    if s.len() == 0 {
        seq![Seq::<char>::empty()]
    } else {
        let init = split_pieces(s.drop_last(), sep);
        if s.last() == sep {
            init.push(Seq::<char>::empty())
        } else {
            init.update(init.len() - 1, init.last().push(s.last()))
        }
    }
}

/// The number of characters before the first `=` of an option (all of them
/// when there is none).
pub open spec fn key_len(piece: Seq<char>) -> nat
    decreases piece.len(),
{
    if piece.len() == 0 {
        0
    } else if piece[0] == '=' {
        0
    } else {
        1 + key_len(piece.drop_first())
    }
}

/// An option split at its first `=`: the key, and the value when there is a `=`.
pub open spec fn key_value(piece: Seq<char>) -> (Seq<char>, Option<Seq<char>>) {
    let k = key_len(piece);
    if k < piece.len() {
        (piece.take(k as int), Some(piece.skip(k as int + 1)))
    } else {
        (piece, None)
    }
}

/// The options of a list of pieces, in order, leaving out those with an empty key.
pub open spec fn entries_of(pieces: Seq<Seq<char>>) -> Seq<(Seq<char>, Option<Seq<char>>)>
    decreases pieces.len(),
{
    if pieces.len() == 0 {
        seq![]
    } else {
        let init = entries_of(pieces.drop_last());
        if key_len(pieces.last()) > 0 {
            init.push(key_value(pieces.last()))
        } else {
            init
        }
    }
}

/// The `key[=value]` options of a comma-separated option string, in order.
pub open spec fn option_entries(options: Seq<char>) -> Seq<(Seq<char>, Option<Seq<char>>)> {
    entries_of(split_pieces(options, ','))
}

/// The callback, handed the option `entry`, may return `out`.
pub open spec fn passed<F: FnMut(&str, Option<&str>) -> Result<(), String>>(
    callback: F,
    entry: (Seq<char>, Option<Seq<char>>),
    out: Result<(), String>,
) -> bool {
    exists|k: &str, v: Option<&str>|
        #![trigger call_ensures(callback, (k, v), out)]
        k@ == entry.0 && opt_chars(v) == entry.1 && call_ensures(callback, (k, v), out)
}

proof fn lemma_key_len_is(piece: Seq<char>, k: int)
    requires
        0 <= k <= piece.len(),
        forall|i: int| 0 <= i < k ==> piece[i] != '=',
        k < piece.len() ==> piece[k] == '=',
    ensures
        key_len(piece) == k,
    decreases piece.len(),
{
    if piece.len() > 0 && piece[0] != '=' {
        lemma_key_len_is(piece.drop_first(), k - 1);
    }
}


/// The pieces written back one after the other with `sep` between them.
pub open spec fn joined(pieces: Seq<Seq<char>>, sep: char) -> Seq<char>
    decreases pieces.len(),
{
    if pieces.len() == 0 {
        Seq::empty()
    } else if pieces.len() == 1 {
        pieces[0]
    } else {
        joined(pieces.drop_last(), sep).push(sep) + pieces.last()
    }
}

/// Splitting loses nothing and cuts only at the separator: the pieces joined
/// back with `sep` give the text, there is always at least one piece, and no
/// piece holds `sep`, so every other character (a space, an `=`) stays inside
/// its piece.
pub proof fn law_split_only_at_separator(s: Seq<char>, sep: char)
    ensures
        joined(split_pieces(s, sep), sep) == s,
        split_pieces(s, sep).len() >= 1,
        forall|i: int, j: int| 0 <= i < split_pieces(s, sep).len() && 0 <= j < split_pieces(s, sep)[i].len()
            ==> #[trigger] split_pieces(s, sep)[i][j] != sep,
        split_pieces(s, sep).len() == 1 + s.filter(|c: char| c == sep).len(),
    decreases s.len(),
{
    reveal(Seq::filter);
    if s.len() == 0 {
        assert(joined(split_pieces(s, sep), sep) =~= s);
    } else {
        let init = split_pieces(s.drop_last(), sep);
        law_split_only_at_separator(s.drop_last(), sep);
        let ps = split_pieces(s, sep);
        if s.last() == sep {
            assert(ps.drop_last() =~= init);
            assert(joined(ps, sep) =~= s);
            assert forall|i: int, j: int| 0 <= i < ps.len() && 0 <= j < ps[i].len() implies #[trigger] ps[i][j] != sep by {
                assert(i < init.len());
                assert(ps[i] == init[i]);
            }
        } else {
            let m = init.len() - 1;
            assert(ps.len() == init.len());
            if init.len() == 1 {
                assert(joined(ps, sep) =~= s);
            } else {
                assert(ps.drop_last() =~= init.drop_last());
                let a = joined(init.drop_last(), sep).push(sep);
                assert(joined(init, sep) == a + init.last());
                assert(ps.last() == init.last().push(s.last()));
                assert(joined(ps, sep) == a + ps.last());
                assert(a + init.last().push(s.last()) =~= (a + init.last()).push(s.last()));
                assert(s.drop_last().push(s.last()) =~= s);
                assert(joined(ps, sep) =~= s);
            }
            assert forall|i: int, j: int| 0 <= i < ps.len() && 0 <= j < ps[i].len() implies #[trigger] ps[i][j] != sep by {
                if i < m {
                    assert(ps[i] == init[i]);
                } else if j < init[m].len() {
                    assert(ps[i][j] == init[m][j]);
                }
            }
        }
    }
}

proof fn lemma_no_separator_one_piece(s: Seq<char>, sep: char)
    requires
        forall|i: int| 0 <= i < s.len() ==> s[i] != sep,
    ensures
        split_pieces(s, sep) == seq![s],
    decreases s.len(),
{
    if s.len() > 0 {
        lemma_no_separator_one_piece(s.drop_last(), sep);
        assert(s.drop_last().push(s.last()) =~= s);
        assert(split_pieces(s, sep) =~= seq![s]);
    } else {
        assert(s =~= Seq::<char>::empty());
        assert(split_pieces(s, sep) =~= seq![s]);
    }
}

/// A text without a comma is a single option, whatever else it holds (spaces
/// included): its key is the text before the first `=` and its value all the
/// text after it.
pub proof fn law_one_option_without_comma(s: Seq<char>)
    requires
        forall|i: int| 0 <= i < s.len() ==> s[i] != ',',
        key_len(s) > 0,
    ensures
        option_entries(s) == seq![key_value(s)],
{
    lemma_no_separator_one_piece(s, ',');
    let ps = split_pieces(s, ',');
    assert(ps.len() == 1 && ps.last() == s);
    assert(ps.drop_last() =~= Seq::<Seq<char>>::empty());
    assert(entries_of(ps.drop_last()) =~= Seq::<(Seq<char>, Option<Seq<char>>)>::empty());
    assert(entries_of(ps) == entries_of(ps.drop_last()).push(key_value(s)));
    assert(entries_of(ps) =~= seq![key_value(s)]);
}

/// An option as text, by its characters.
pub open spec fn entry_view(e: (String, Option<String>)) -> (Seq<char>, Option<Seq<char>>) {
    (e.0@, match e.1 {
        Some(v) => Some(v@),
        None => None,
    })
}

/// The `key[=value]` options of the comma-separated `options`, in order: the
/// key is the text before the first `=`, and the value the text after it, if
/// there is a `=`. Options with an empty key are left out.
pub fn option_list(options: &str) -> (r: Vec<(String, Option<String>)>)
    requires
        options@.len() < usize::MAX,
    ensures
        r@.len() == option_entries(options@).len(),
        forall|i: int| 0 <= i < r@.len() ==> entry_view(#[trigger] r@[i]) == option_entries(options@)[i],
{
    let s = options;
    let n = s.unicode_len();
    let ghost text = s@;
    let mut out: Vec<(String, Option<String>)> = Vec::new();
    let mut start: usize = 0;
    let mut i: usize = 0;
    let ghost mut done: Seq<Seq<char>> = Seq::empty();
    assert(text.take(0) =~= Seq::<char>::empty());
    while i <= n
        invariant
            n == text.len(),
            n < usize::MAX,
            text == s@,
            start <= i <= n + 1,
            i <= n ==> start <= i,
            i <= n ==> split_pieces(text.take(i as int), ',') == done.push(
                text.subrange(start as int, i as int),
            ),
            i == n + 1 ==> split_pieces(text, ',') == done,
            out@.len() == entries_of(done).len(),
            forall|j: int| 0 <= j < out@.len() ==> entry_view(#[trigger] out@[j]) == entries_of(done)[j],
        decreases n + 1 - i,
    {
        let at_end = i == n;
        let is_sep = if at_end { true } else { s.get_char(i) == ',' };
        if is_sep {
            // the piece [start, i) is complete
            let ghost piece = text.subrange(start as int, i as int);
            let mut k: usize = start;
            while k < i && s.get_char(k) != '='
                invariant
                    start <= k <= i <= n,
                    n == text.len(),
                    text == s@,
                    forall|m: int| start <= m < k ==> text[m] != '=',
                decreases i - k,
            {
                k = k + 1;
            }
            proof {
                lemma_key_len_is(piece, k - start);
            }
            let ghost before = out@;
            if k > start {
                let key = s.substring_char(start, k).to_owned();
                let value = if k < i { Some(s.substring_char(k + 1, i).to_owned()) } else { None };
                assert(key@ =~= key_value(piece).0);
                proof {
                    if k < i {
                        assert(text.subrange(k + 1, i as int) =~= piece.skip(k - start + 1));
                    }
                }
                out.push((key, value));
                assert(entry_view(out@[before.len() as int]) == key_value(piece));
            }
            proof {
                let ghost old_done = done;
                assert(done.push(piece).drop_last() =~= done);
                done = done.push(piece);
                if i < n {
                    assert(text.take(i + 1).drop_last() =~= text.take(i as int));
                    assert(text.take(i + 1).last() == ',');
                    assert(text.subrange(i + 1, i + 1) =~= Seq::<char>::empty());
                } else {
                    assert(text.take(i as int) =~= text);
                }
                if key_len(piece) > 0 {
                    assert(entries_of(done) == entries_of(old_done).push(key_value(piece)));
                    assert forall|j: int| 0 <= j < out@.len() implies entry_view(#[trigger] out@[j]) == entries_of(done)[j] by {
                        if j < before.len() {
                            assert(out@[j] == before[j]);
                        }
                    }
                } else {
                    assert(entries_of(done) == entries_of(old_done));
                }
            }
            start = i + 1;
        } else {
            proof {
                assert(text.take(i + 1).drop_last() =~= text.take(i as int));
                assert(text.subrange(start as int, i + 1) =~= text.subrange(start as int, i as int).push(text[i as int]));
            }
        }
        i = i + 1;
    }
    out
}

/// Calls `callback` on each `key[=value]` option of the comma-separated
/// `options`, in order, with the key (the text before the first `=`) and the
/// value (the text after it, if there is a `=`). Options with an empty key are
/// skipped. The first error of the callback stops the walk and is returned.
pub fn parse_options<F>(options: String, callback: F) -> (r: Result<(), String>)
    where F: FnMut(&str, Option<&str>) -> Result<(), String>,
    requires
        options@.len() < usize::MAX,
        forall|k: &str, v: Option<&str>| call_requires(callback, (k, v)),
    ensures
        ({
            let es = option_entries(options@);
            match r {
                Ok(()) => forall|i: int| 0 <= i < es.len() ==> passed(callback, #[trigger] es[i], Ok(())),
                Err(e) => exists|j: int|
                    0 <= j < es.len() && passed(callback, #[trigger] es[j], Err(e))
                        && forall|i: int| 0 <= i < j ==> passed(callback, #[trigger] es[i], Ok(())),
            }
        }),
{
    let list = option_list(options.as_str());
    let ghost es = option_entries(options@);
    let ghost cb = callback;
    let mut f = callback;
    let mut k: usize = 0;
    while k < list.len()
        invariant
            k <= list@.len(),
            list@.len() == es.len(),
            forall|j: int| 0 <= j < list@.len() ==> entry_view(#[trigger] list@[j]) == es[j],
            f == cb,
            cb == callback,
            es == option_entries(options@),
            forall|a: &str, v: Option<&str>| call_requires(f, (a, v)),
            forall|i: int| 0 <= i < k ==> passed(cb, #[trigger] es[i], Ok(())),
        decreases list@.len() - k,
    {
        let key = list[k].0.as_str();
        let value = match &list[k].1 {
            Some(v) => Some(v.as_str()),
            None => None,
        };
        assert(entry_view(list@[k as int]) == es[k as int]);
        assert(key@ == es[k as int].0 && opt_chars(value) == es[k as int].1);
        let res = f(key, value);
        proof {
            broadcast use vstd::function::group_function_axioms;
            assert(call_ensures(cb, (key, value), res));
        }
        match res {
            Ok(u) => {
                assert(res == Ok::<(), String>(u));
                assert(passed(cb, es[k as int], Ok(())));
            },
            Err(e) => {
                assert(passed(cb, es[k as int], Err(e)));
                return Err(e);
            },
        }
        k = k + 1;
    }
    Ok(())
}

}
