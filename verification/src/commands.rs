//! The decisions of the command-line commands: which chapters to fetch,
//! which search result the user picked, and how a result is summarised.
use vstd::prelude::*;
use crate::text::{chars_eq, chars_of, push_str, string_of, trim, trim_str};
use crate::types::{chapter_file_stem, file_stem, parse_usize, usize_of, Chapter, ChapterRange};

verus! {

/// Whether chapter `i` is selected: by the range when there is one, else
/// always.
pub open spec fn selected(r: Option<ChapterRange>, i: usize) -> bool {
    match r {
        Some(x) => x.start <= i && i <= x.end,
        None => true,
    }
}

/// Whether chapter `i` is recorded among `existing` (number, title, file).
pub open spec fn recorded(existing: Seq<(usize, String, String)>, i: usize) -> bool {
    exists|k: int| 0 <= k < existing.len() && #[trigger] existing[k].0 == i
}

/// The chapters of `chs` that pass `keep`, in order.
pub open spec fn chapters_where(chs: Seq<Chapter>, keep: spec_fn(Chapter) -> bool) -> Seq<Chapter>
    decreases chs.len(),
{
    if chs.len() == 0 {
        seq![]
    } else if keep(chs.last()) {
        chapters_where(chs.drop_last(), keep).push(chs.last())
    } else {
        chapters_where(chs.drop_last(), keep)
    }
}

/// The test for a chapter in the range `r`.
pub open spec fn in_range(r: Option<ChapterRange>) -> spec_fn(Chapter) -> bool {
    |c: Chapter| selected(r, c.index)
}

/// The test for a chapter in the range `r` that is not recorded yet.
pub open spec fn new_in_range(existing: Seq<(usize, String, String)>, r: Option<ChapterRange>) -> spec_fn(
    Chapter,
) -> bool {
    |c: Chapter| !recorded(existing, c.index) && selected(r, c.index)
}

/// The name of the file that the template `ft` gives chapter `c` in the
/// format `format` (`txt` for text, `mp3` for audio).
pub open spec fn chapter_file_name(ft: Seq<char>, c: Chapter, format: Seq<char>) -> Seq<char> {
    file_stem(ft, c.index, c.title@) + "."@ + format
}

/// Whether a file named `name` is among the file names `names`.
pub open spec fn on_disk(names: Seq<String>, name: Seq<char>) -> bool {
    exists|k: int| 0 <= k < names.len() && #[trigger] names[k]@ == name
}

/// The test for a chapter in the range `r` whose file, named by the
/// template `ft` in the format `format`, is not among `names`.
pub open spec fn missing_in_range(
    names: Seq<String>,
    ft: Seq<char>,
    format: Seq<char>,
    r: Option<ChapterRange>,
) -> spec_fn(Chapter) -> bool {
    |c: Chapter| !on_disk(names, chapter_file_name(ft, c, format)) && selected(r, c.index)
}

fn is_selected(r: &Option<ChapterRange>, i: usize) -> (res: bool)
    ensures
        res == selected(*r, i),
{
    match r {
        Some(x) => x.contains(i),
        None => true,
    }
}

fn is_recorded(existing: &Vec<(usize, String, String)>, i: usize) -> (res: bool)
    ensures
        res == recorded(existing@, i),
{
    let n = existing.len();
    let mut k: usize = 0;
    while k < n
        invariant
            n == existing@.len(),
            k <= n,
            forall|j: int| 0 <= j < k ==> existing@[j].0 != i,
        decreases n - k,
    {
        if existing[k].0 == i {
            return true;
        }
        k += 1;
    }
    false
}

/// Copies the chapters of `all` that pass the test `keep`, whose value on
/// each chapter `marks` holds.
fn copy_where(all: &Vec<Chapter>, keep: Ghost<spec_fn(Chapter) -> bool>, marks: &Vec<bool>) -> (res:
    Vec<Chapter>)
    requires
        marks@.len() == all@.len(),
        forall|k: int| 0 <= k < all@.len() ==> marks@[k] == (keep@)(#[trigger] all@[k]),
    ensures
        res@ == chapters_where(all@, keep@),
{
    let mut out: Vec<Chapter> = Vec::new();
    let n = all.len();
    let mut i: usize = 0;
    proof {
        assert(all@.take(0) =~= Seq::<Chapter>::empty());
    }
    while i < n
        invariant
            n == all@.len() == marks@.len(),
            forall|k: int| 0 <= k < all@.len() ==> marks@[k] == (keep@)(#[trigger] all@[k]),
            i <= n,
            out@ == chapters_where(all@.take(i as int), keep@),
        decreases n - i,
    {
        proof {
            assert(all@.take(i + 1).drop_last() =~= all@.take(i as int));
            assert(all@.take(i + 1).last() == all@[i as int]);
        }
        if marks[i] {
            out.push(all[i].copy());
        }
        i += 1;
    }
    proof {
        assert(all@.take(n as int) =~= all@);
    }
    out
}

/// The chapters of `all` in the range `r` (all of them without a range).
pub fn chapters_in_range(all: &Vec<Chapter>, r: &Option<ChapterRange>) -> (res: Vec<Chapter>)
    ensures
        res@ == chapters_where(all@, in_range(*r)),
{
    let mut marks: Vec<bool> = Vec::new();
    let n = all.len();
    let mut i: usize = 0;
    while i < n
        invariant
            n == all@.len(),
            i <= n,
            marks@.len() == i,
            forall|k: int| 0 <= k < i ==> marks@[k] == (in_range(*r))(#[trigger] all@[k]),
        decreases n - i,
    {
        marks.push(is_selected(r, all[i].index));
        i += 1;
    }
    copy_where(all, Ghost(in_range(*r)), &marks)
}

/// The chapters of `all` in the range `r` that `existing` does not record
/// yet.
pub fn new_chapters(all: &Vec<Chapter>, existing: &Vec<(usize, String, String)>, r: &Option<
    ChapterRange,
>) -> (res: Vec<Chapter>)
    ensures
        res@ == chapters_where(all@, new_in_range(existing@, *r)),
{
    let mut marks: Vec<bool> = Vec::new();
    let n = all.len();
    let mut i: usize = 0;
    while i < n
        invariant
            n == all@.len(),
            i <= n,
            marks@.len() == i,
            forall|k: int|
                0 <= k < i ==> marks@[k] == (new_in_range(existing@, *r))(#[trigger] all@[k]),
        decreases n - i,
    {
        let idx = all[i].index;
        marks.push(!is_recorded(existing, idx) && is_selected(r, idx));
        i += 1;
    }
    copy_where(all, Ghost(new_in_range(existing@, *r)), &marks)
}

/// Whether a file named `name` is among `names`.
fn is_on_disk(names: &Vec<String>, name: &Vec<char>) -> (res: bool)
    ensures
        res == on_disk(names@, name@),
{
    let n = names.len();
    let mut k: usize = 0;
    while k < n
        invariant
            n == names@.len(),
            k <= n,
            forall|j: int| 0 <= j < k ==> names@[j]@ != name@,
        decreases n - k,
    {
        if chars_eq(&chars_of(names[k].as_str()), name) {
            return true;
        }
        k += 1;
    }
    false
}

/// The chapters of `all` in the range `r` whose file is not among the
/// file names `names` yet: the file that the template `ft` names, in the
/// format `format` (`txt` for text, `mp3` for audio).
pub fn chapters_not_on_disk(
    all: &Vec<Chapter>,
    names: &Vec<String>,
    ft: &str,
    format: &str,
    r: &Option<ChapterRange>,
) -> (res: Vec<Chapter>)
    ensures
        res@ == chapters_where(all@, missing_in_range(names@, ft@, format@, *r)),
{
    let ghost keep = missing_in_range(names@, ft@, format@, *r);
    let mut marks: Vec<bool> = Vec::new();
    let n = all.len();
    let mut i: usize = 0;
    while i < n
        invariant
            n == all@.len(),
            i <= n,
            marks@.len() == i,
            keep == missing_in_range(names@, ft@, format@, *r),
            forall|k: int| 0 <= k < i ==> marks@[k] == keep(#[trigger] all@[k]),
        decreases n - i,
    {
        let mut name = chapter_file_stem(ft, &all[i]);
        push_str(&mut name, ".");
        push_str(&mut name, format);
        let missing = !is_on_disk(names, &name);
        marks.push(missing && is_selected(r, all[i].index));
        i += 1;
    }
    copy_where(all, Ghost(keep), &marks)
}

/// The search result that the user's answer `input` picks among `count`
/// results: the number typed (trimmed), counted from 1, when it is one of
/// them.
pub open spec fn picked(input: Seq<char>, count: usize) -> Option<usize> {
    match usize_of(trim(input)) {
        Some(n) => if 1 <= n && n <= count {
            Some((n - 1) as usize)
        } else {
            None
        },
        None => None,
    }
}

/// The position of the search result that `input` picks, if any.
pub fn choose_book(input: &str, count: usize) -> (res: Option<usize>)
    ensures
        res == picked(input@, count),
{
    match parse_usize(&trim_str(input)) {
        Some(n) => if 1 <= n && n <= count {
            Some(n - 1)
        } else {
            None
        },
        None => None,
    }
}

/// The position of result number `n` (counted from 1) among `count`
/// results, if there is one.
pub fn auto_choice(n: usize, count: usize) -> (res: Option<usize>)
    ensures
        res == (if 1 <= n && n <= count {
            Some((n - 1) as usize)
        } else {
            None::<usize>
        }),
{
    if 1 <= n && n <= count {
        Some(n - 1)
    } else {
        None
    }
}

/// The summary shown for a book's abstract: the abstract itself when it
/// has at most 60 characters, else its first 60 followed by `...`.
pub open spec fn preview(s: Seq<char>) -> Seq<char> {
    if s.len() > 60 {
        s.take(60) + "..."@
    } else {
        s
    }
}

/// The summary shown for the abstract `s` (see `preview`).
pub fn abstract_preview(s: &str) -> (res: String)
    ensures
        res@ == preview(s@),
{
    let v = chars_of(s);
    if v.len() > 60 {
        let mut out = crate::text::copy_range(&v, 0, 60);
        push_str(&mut out, "...");
        string_of(&out)
    } else {
        string_of(&v)
    }
}

/// The chapters kept are exactly those of `chs` that pass the test, in
/// their order.
pub proof fn chapters_where_keeps_exactly(chs: Seq<Chapter>, keep: spec_fn(Chapter) -> bool)
    ensures
        forall|k: int| 0 <= k < chapters_where(chs, keep).len() ==> keep(
            #[trigger] chapters_where(chs, keep)[k],
        ) && chs.contains(chapters_where(chs, keep)[k]),
        forall|c: Chapter| chs.contains(c) && keep(c) ==> #[trigger] chapters_where(
            chs,
            keep,
        ).contains(c),
    decreases chs.len(),
{
    if chs.len() > 0 {
        let init = chs.drop_last();
        chapters_where_keeps_exactly(init, keep);
        let prev = chapters_where(init, keep);
        let cur = chapters_where(chs, keep);
        assert forall|k: int| 0 <= k < cur.len() implies keep(#[trigger] cur[k]) && chs.contains(
            cur[k],
        ) by {
            if k < prev.len() {
                assert(cur[k] == prev[k]);
                let j = choose|j: int| 0 <= j < init.len() && init[j] == prev[k];
                assert(chs[j] == init[j]);
            } else {
                assert(cur[k] == chs.last());
                assert(chs[chs.len() - 1] == chs.last());
            }
        }
        assert forall|c: Chapter| chs.contains(c) && keep(c) implies #[trigger] cur.contains(c) by {
            let j = choose|j: int| 0 <= j < chs.len() && chs[j] == c;
            if j < chs.len() - 1 {
                assert(init[j] == c);
                assert(init.contains(c));
                assert(prev.contains(c));
                let i = choose|i: int| 0 <= i < prev.len() && prev[i] == c;
                if keep(chs.last()) {
                    assert(cur == prev.push(chs.last()));
                    assert(cur[i] == prev[i]);
                    assert(cur[i] == c);
                } else {
                    assert(cur == prev);
                    assert(cur[i] == c);
                }
            } else {
                assert(cur[cur.len() - 1] == c);
            }
        }
    }
}

/// An update fetches exactly the chapters in the range that the index
/// does not record yet: none it records, and every other one in range.
pub proof fn update_fetches_only_new_chapters(
    all: Seq<Chapter>,
    existing: Seq<(usize, String, String)>,
    r: Option<ChapterRange>,
)
    ensures
        forall|k: int| 0 <= k < chapters_where(all, new_in_range(existing, r)).len() ==> {
            let c = #[trigger] chapters_where(all, new_in_range(existing, r))[k];
            &&& !recorded(existing, c.index)
            &&& selected(r, c.index)
            &&& all.contains(c)
        },
        forall|c: Chapter|
            all.contains(c) && !recorded(existing, c.index) && selected(r, c.index)
                ==> #[trigger] chapters_where(all, new_in_range(existing, r)).contains(c),
{
    chapters_where_keeps_exactly(all, new_in_range(existing, r));
    assert forall|c: Chapter|
        all.contains(c) && !recorded(existing, c.index) && selected(
            r,
            c.index,
        ) implies #[trigger] chapters_where(all, new_in_range(existing, r)).contains(c) by {
        assert((new_in_range(existing, r))(c));
    }
}

/// An update in a directory fetches exactly the chapters in the range
/// whose file is not there yet: none whose file is among `names`, and
/// every other one in range.
pub proof fn update_skips_chapters_on_disk(
    all: Seq<Chapter>,
    names: Seq<String>,
    ft: Seq<char>,
    format: Seq<char>,
    r: Option<ChapterRange>,
)
    ensures
        forall|k: int| 0 <= k < chapters_where(all, missing_in_range(names, ft, format, r)).len() ==> {
            let c = #[trigger] chapters_where(all, missing_in_range(names, ft, format, r))[k];
            &&& !on_disk(names, chapter_file_name(ft, c, format))
            &&& selected(r, c.index)
            &&& all.contains(c)
        },
        forall|c: Chapter|
            all.contains(c) && !on_disk(names, chapter_file_name(ft, c, format)) && selected(
                r,
                c.index,
            ) ==> #[trigger] chapters_where(all, missing_in_range(names, ft, format, r)).contains(c),
{
    let keep = missing_in_range(names, ft, format, r);
    chapters_where_keeps_exactly(all, keep);
    assert forall|c: Chapter|
        all.contains(c) && !on_disk(names, chapter_file_name(ft, c, format)) && selected(
            r,
            c.index,
        ) implies #[trigger] chapters_where(all, keep).contains(c) by {
        assert(keep(c));
    }
}

} // verus!
