//! The presentation grouper and formatter: orders enriched entries by
//! display name, groups them by department, phrases each return date
//! relative to the reference date, and produces a structured document of
//! typed presentation blocks.

use vstd::prelude::*;

use crate::date::{
    day_number, lemma_day_number_bounds, max_day_number, return_gap, spec_return_date, weekday,
    Date,
};
use crate::records::TimeOffWithEmployeeInfo;
use crate::text::{
    chars_le, day_of_month_chars, day_of_month_string, lemma_chars_le_antisymmetric,
    lemma_chars_le_total, month_name, month_name_chars, str_le, weekday_name,
    weekday_name_chars,
};

verus! {

/// Ghost model of one bulleted line: the display name and the return note.
pub struct SpecListItem {
    pub name: Seq<char>,
    pub note: Seq<char>,
}

/// Ghost model of a presentation block.
pub enum SpecBlock {
    Header(Seq<char>),
    Section(Seq<char>),
    Bullets(Seq<SpecListItem>),
}

/// One line of a bulleted list: the display name (shown bold) and the
/// return note (shown italic).
#[derive(Debug, PartialEq, Eq)]
pub struct ListItem {
    pub name: String,
    pub note: String,
}

impl View for ListItem {
    type V = SpecListItem;

    open spec fn view(&self) -> SpecListItem {
        SpecListItem { name: self.name@, note: self.note@ }
    }
}

/// A presentation block of the rendered document: the digest header, a
/// department label line, or a bulleted list of entries.
#[derive(Debug, PartialEq, Eq)]
pub enum Block {
    Header(String),
    Section(String),
    Bullets(Vec<ListItem>),
}

impl View for Block {
    type V = SpecBlock;

    open spec fn view(&self) -> SpecBlock {
        match self {
            Block::Header(s) => SpecBlock::Header(s@),
            Block::Section(s) => SpecBlock::Section(s@),
            Block::Bullets(items) => SpecBlock::Bullets(
                items@.map_values(|it: ListItem| it@),
            ),
        }
    }
}

/// The ghost value of a built document.
pub open spec fn blocks_view(s: Seq<Block>) -> Seq<SpecBlock> {
    s.map_values(|b: Block| b@)
}

pub open spec fn items_view(s: Seq<ListItem>) -> Seq<SpecListItem> {
    s.map_values(|it: ListItem| it@)
}

pub open spec fn strings_view(s: Seq<String>) -> Seq<Seq<char>> {
    s.map_values(|x: String| x@)
}

/// The department label of an entry: the directory department, or the
/// fixed fallback bucket when the entry or its department is absent.
pub open spec fn spec_department_label(e: TimeOffWithEmployeeInfo) -> Seq<char> {
    match e.employee_info {
        Some(info) => match info.department {
            Some(d) => d@,
            None => "Other departments"@,
        },
        None => "Other departments"@,
    }
}

/// The department label of an entry.
pub fn department_label(e: &TimeOffWithEmployeeInfo) -> (r: String)
    ensures
        r@ == spec_department_label(*e),
{
    match &e.employee_info {
        Some(info) => match &info.department {
            Some(d) => d.clone(),
            None => "Other departments".to_owned(),
        },
        None => "Other departments".to_owned(),
    }
}

/// Presentation order of entries: by computed display name, ties broken by
/// employee identifier.
pub open spec fn entry_le(a: TimeOffWithEmployeeInfo, b: TimeOffWithEmployeeInfo) -> bool {
    if a.spec_display_name() == b.spec_display_name() {
        a.time_off.employee_id <= b.time_off.employee_id
    } else {
        chars_le(a.spec_display_name(), b.spec_display_name())
    }
}

/// Pairwise sortedness under `entry_le`.
pub open spec fn entries_sorted(s: Seq<TimeOffWithEmployeeInfo>) -> bool {
    forall|i: int, j: int| 0 <= i < j < s.len() ==> entry_le(#[trigger] s[i], #[trigger] s[j])
}

pub proof fn lemma_entry_le_total(a: TimeOffWithEmployeeInfo, b: TimeOffWithEmployeeInfo)
    ensures
        entry_le(a, b) || entry_le(b, a),
{
    lemma_chars_le_total(a.spec_display_name(), b.spec_display_name());
}

pub proof fn lemma_entry_le_transitive(
    a: TimeOffWithEmployeeInfo,
    b: TimeOffWithEmployeeInfo,
    c: TimeOffWithEmployeeInfo,
)
    requires
        entry_le(a, b),
        entry_le(b, c),
    ensures
        entry_le(a, c),
{
    let na = a.spec_display_name();
    let nb = b.spec_display_name();
    let nc = c.spec_display_name();
    if na != nb && nb != nc {
        crate::text::lemma_chars_le_transitive(na, nb, nc);
        if na == nc {
            lemma_chars_le_antisymmetric(nb, nc);
        }
    }
}

fn entry_le_exec(a: &TimeOffWithEmployeeInfo, b: &TimeOffWithEmployeeInfo) -> (r: bool)
    ensures
        r == entry_le(*a, *b),
{
    let na = a.display_name();
    let nb = b.display_name();
    if na == nb {
        a.time_off.employee_id <= b.time_off.employee_id
    } else {
        str_le(na.as_str(), nb.as_str())
    }
}

/// Stable insertion of an entry into a sorted run: after every entry that
/// sorts on or before it.
pub open spec fn insert_entry(
    s: Seq<TimeOffWithEmployeeInfo>,
    x: TimeOffWithEmployeeInfo,
) -> Seq<TimeOffWithEmployeeInfo>
    decreases s.len(),
{
    if s.len() == 0 {
        seq![x]
    } else if entry_le(s[0], x) {
        seq![s[0]] + insert_entry(s.drop_first(), x)
    } else {
        seq![x] + s
    }
}

/// Stable insertion sort of entries by display name, then identifier.
pub open spec fn sort_entries_spec(s: Seq<TimeOffWithEmployeeInfo>) -> Seq<
    TimeOffWithEmployeeInfo,
>
    decreases s.len(),
{
    if s.len() == 0 {
        s
    } else {
        insert_entry(sort_entries_spec(s.drop_last()), s.last())
    }
}

proof fn lemma_insert_entry_at(s: Seq<TimeOffWithEmployeeInfo>, x: TimeOffWithEmployeeInfo, j: int)
    requires
        0 <= j <= s.len(),
        forall|k: int| 0 <= k < j ==> entry_le(#[trigger] s[k], x),
        j < s.len() ==> !entry_le(s[j], x),
    ensures
        insert_entry(s, x) =~= s.take(j) + seq![x] + s.skip(j),
    decreases s.len(),
{
    if s.len() == 0 {
    } else if entry_le(s[0], x) {
        assert(j >= 1);
        assert forall|k: int| 0 <= k < j - 1 implies entry_le(#[trigger] s.drop_first()[k], x) by {
            assert(s.drop_first()[k] == s[k + 1]);
        }
        lemma_insert_entry_at(s.drop_first(), x, j - 1);
    } else {
        assert(j == 0);
    }
}

proof fn lemma_insert_entry_multiset(s: Seq<TimeOffWithEmployeeInfo>, x: TimeOffWithEmployeeInfo)
    ensures
        insert_entry(s, x).to_multiset() =~= s.to_multiset().insert(x),
    decreases s.len(),
{
    broadcast use vstd::seq_lib::group_to_multiset_ensures;
    broadcast use vstd::seq_lib::lemma_multiset_commutative;

    if s.len() == 0 {
        assert(insert_entry(s, x) =~= Seq::empty().push(x));
    } else if entry_le(s[0], x) {
        lemma_insert_entry_multiset(s.drop_first(), x);
        assert(seq![s[0]] =~= Seq::empty().push(s[0]));
        assert(s =~= seq![s[0]] + s.drop_first());
    } else {
        lemma_multiset_of_prepend_entry(s, x);
    }
}

proof fn lemma_multiset_of_prepend_entry(s: Seq<TimeOffWithEmployeeInfo>, x: TimeOffWithEmployeeInfo)
    ensures
        (seq![x] + s).to_multiset() =~= s.to_multiset().insert(x),
    decreases s.len(),
{
    broadcast use vstd::seq_lib::group_to_multiset_ensures;

    if s.len() == 0 {
        assert(seq![x] + s =~= Seq::empty().push(x));
    } else {
        lemma_multiset_of_prepend_entry(s.drop_last(), x);
        assert(seq![x] + s =~= (seq![x] + s.drop_last()).push(s.last()));
        assert(s =~= s.drop_last().push(s.last()));
    }
}

proof fn lemma_insert_entry_sorted(s: Seq<TimeOffWithEmployeeInfo>, x: TimeOffWithEmployeeInfo)
    requires
        entries_sorted(s),
    ensures
        entries_sorted(insert_entry(s, x)),
    decreases s.len(),
{
    broadcast use vstd::seq_lib::group_to_multiset_ensures;

    if s.len() == 0 {
    } else if entry_le(s[0], x) {
        assert(entries_sorted(s.drop_first())) by {
            assert(forall|i: int, j: int|
                0 <= i < j < s.drop_first().len() ==> entry_le(
                    #[trigger] s.drop_first()[i],
                    #[trigger] s.drop_first()[j],
                ));
        }
        lemma_insert_entry_sorted(s.drop_first(), x);
        lemma_insert_entry_multiset(s.drop_first(), x);
        let t = seq![s[0]] + insert_entry(s.drop_first(), x);
        assert forall|i: int, j: int| 0 <= i < j < t.len() implies entry_le(
            #[trigger] t[i],
            #[trigger] t[j],
        ) by {
            if i == 0 {
                let y = insert_entry(s.drop_first(), x)[j - 1];
                assert(insert_entry(s.drop_first(), x).to_multiset().contains(y));
                if y == x {
                } else {
                    assert(s.drop_first().to_multiset().contains(y));
                    let k = choose|k: int|
                        0 <= k < s.drop_first().len() && s.drop_first()[k] == y;
                    assert(entry_le(s[0], s[k + 1]));
                }
            }
        }
    } else {
        let t = seq![x] + s;
        lemma_entry_le_total(s[0], x);
        assert forall|i: int, j: int| 0 <= i < j < t.len() implies entry_le(
            #[trigger] t[i],
            #[trigger] t[j],
        ) by {
            if i == 0 {
                if j > 1 {
                    assert(entry_le(s[0], s[j - 1]));
                    lemma_entry_le_transitive(x, s[0], s[j - 1]);
                }
            }
        }
    }
}

pub proof fn lemma_sort_entries_spec_ensures(s: Seq<TimeOffWithEmployeeInfo>)
    ensures
        sort_entries_spec(s).to_multiset() =~= s.to_multiset(),
        entries_sorted(sort_entries_spec(s)),
    decreases s.len(),
{
    broadcast use vstd::seq_lib::group_to_multiset_ensures;

    if s.len() == 0 {
    } else {
        lemma_sort_entries_spec_ensures(s.drop_last());
        lemma_insert_entry_multiset(sort_entries_spec(s.drop_last()), s.last());
        lemma_insert_entry_sorted(sort_entries_spec(s.drop_last()), s.last());
        assert(s =~= s.drop_last().push(s.last()));
    }
}

/// Sorts entries by display name, ties broken by employee identifier.
pub fn sort_entries(v: Vec<TimeOffWithEmployeeInfo>) -> (r: Vec<TimeOffWithEmployeeInfo>)
    ensures
        r@ == sort_entries_spec(v@),
        r@.to_multiset() == v@.to_multiset(),
        entries_sorted(r@),
{
    let ghost orig = v@;
    let mut out: Vec<TimeOffWithEmployeeInfo> = Vec::new();
    let n = v.len();
    let mut idx: usize = 0;
    proof {
        assert(orig.take(0) =~= Seq::empty());
    }
    let mut v = v;
    while idx < n
        invariant
            idx <= n,
            n == v@.len(),
            v@ == orig,
            out@ == sort_entries_spec(orig.take(idx as int)),
        decreases n - idx,
    {
        let x = v[idx].clone();
        let mut j: usize = 0;
        while j < out.len() && entry_le_exec(&out[j], &x)
            invariant
                j <= out.len(),
                forall|k: int| 0 <= k < j ==> entry_le(#[trigger] out@[k], x),
            decreases out.len() - j,
        {
            j = j + 1;
        }
        proof {
            lemma_insert_entry_at(out@, x, j as int);
            assert(orig.take(idx + 1).drop_last() =~= orig.take(idx as int));
            assert(orig.take(idx + 1).last() == orig[idx as int]);
            assert(out@.insert(j as int, x) =~= out@.take(j as int) + seq![x] + out@.skip(
                j as int,
            ));
        }
        out.insert(j, x);
        idx = idx + 1;
    }
    proof {
        assert(orig.take(n as int) =~= orig);
        lemma_sort_entries_spec_ensures(orig);
    }
    out
}

/// Sorted insertion of a department label, skipping duplicates.
pub open spec fn insert_label(ls: Seq<Seq<char>>, l: Seq<char>) -> Seq<Seq<char>>
    decreases ls.len(),
{
    if ls.len() == 0 {
        seq![l]
    } else if ls[0] == l {
        ls
    } else if chars_le(ls[0], l) {
        seq![ls[0]] + insert_label(ls.drop_first(), l)
    } else {
        seq![l] + ls
    }
}

/// The distinct department labels of the entries, in ascending label order.
pub open spec fn labels_of(s: Seq<TimeOffWithEmployeeInfo>) -> Seq<Seq<char>>
    decreases s.len(),
{
    if s.len() == 0 {
        Seq::empty()
    } else {
        insert_label(labels_of(s.drop_last()), spec_department_label(s.last()))
    }
}

proof fn lemma_insert_label_at(ls: Seq<Seq<char>>, l: Seq<char>, j: int)
    requires
        0 <= j <= ls.len(),
        forall|k: int| 0 <= k < j ==> (#[trigger] ls[k]) != l && chars_le(ls[k], l),
        j < ls.len() ==> (ls[j] == l || !chars_le(ls[j], l)),
    ensures
        j < ls.len() && ls[j] == l ==> insert_label(ls, l) =~= ls,
        !(j < ls.len() && ls[j] == l) ==> insert_label(ls, l) =~= ls.take(j) + seq![l] + ls.skip(
            j,
        ),
    decreases ls.len(),
{
    if ls.len() == 0 {
    } else if ls[0] == l {
        assert(j == 0);
    } else if chars_le(ls[0], l) {
        assert(j >= 1);
        assert forall|k: int| 0 <= k < j - 1 implies (#[trigger] ls.drop_first()[k]) != l
            && chars_le(ls.drop_first()[k], l) by {
            assert(ls.drop_first()[k] == ls[k + 1]);
        }
        lemma_insert_label_at(ls.drop_first(), l, j - 1);
        if j < ls.len() && ls[j] == l {
            assert(ls.drop_first()[j - 1] == ls[j]);
            assert(seq![ls[0]] + ls.drop_first() =~= ls);
        }
    } else {
        assert(j == 0);
    }
}

/// Collects the distinct department labels of the entries, sorted.
fn collect_labels(entries: &Vec<TimeOffWithEmployeeInfo>) -> (r: Vec<String>)
    ensures
        strings_view(r@) == labels_of(entries@),
{
    let mut out: Vec<String> = Vec::new();
    let n = entries.len();
    let mut idx: usize = 0;
    proof {
        assert(entries@.take(0) =~= Seq::empty());
        assert(strings_view(Seq::empty()) =~= Seq::empty());
    }
    while idx < n
        invariant
            idx <= n,
            n == entries@.len(),
            strings_view(out@) == labels_of(entries@.take(idx as int)),
        decreases n - idx,
    {
        let label = department_label(&entries[idx]);
        let mut j: usize = 0;
        while j < out.len() && !(out[j] == label) && str_le(out[j].as_str(), label.as_str())
            invariant
                j <= out.len(),
                forall|k: int|
                    0 <= k < j ==> (#[trigger] strings_view(out@)[k]) != label@ && chars_le(
                        strings_view(out@)[k],
                        label@,
                    ),
            decreases out.len() - j,
        {
            j = j + 1;
        }
        proof {
            lemma_insert_label_at(strings_view(out@), label@, j as int);
            assert(entries@.take(idx + 1).drop_last() =~= entries@.take(idx as int));
            assert(entries@.take(idx + 1).last() == entries@[idx as int]);
        }
        if j < out.len() && out[j] == label {
            proof {
                assert(strings_view(out@)[j as int] == label@);
            }
        } else {
            let ghost prev = out@;
            out.insert(j, label);
            proof {
                assert(strings_view(out@) =~= strings_view(prev).take(j as int) + seq![label@]
                    + strings_view(prev).skip(j as int));
            }
        }
        idx = idx + 1;
    }
    proof {
        assert(entries@.take(n as int) =~= entries@);
    }
    out
}

/// The return-date phrase, relative to the reference date: "back tomorrow"
/// for the very next day; the weekday name within the coming week; "next"
/// and the weekday name at exactly a week; the explicit date beyond that.
pub open spec fn spec_return_note(back: Date, date: Date) -> Seq<char> {
    let dnb = day_number(back);
    let dnd = day_number(date);
    if dnb == dnd + 1 {
        " - back tomorrow"@
    } else if dnd + 7 > dnb {
        " - until "@ + weekday_name_chars(weekday(back))
    } else if dnd + 7 == dnb {
        " - until next "@ + weekday_name_chars(weekday(back))
    } else {
        " - until "@ + day_of_month_chars(back.day as int) + " "@ + month_name_chars(
            back.month as int,
        )
    }
}

/// Ghost model of one rendered entry line.
pub open spec fn spec_item(e: TimeOffWithEmployeeInfo, date: Date) -> SpecListItem {
    SpecListItem {
        name: e.spec_display_name(),
        note: spec_return_note(spec_return_date(e.time_off.end), date),
    }
}

pub open spec fn spec_items(s: Seq<TimeOffWithEmployeeInfo>, date: Date) -> Seq<SpecListItem> {
    s.map_values(|e: TimeOffWithEmployeeInfo| spec_item(e, date))
}

/// Entries whose department label is `l`, in order.
pub open spec fn entries_with_label(
    s: Seq<TimeOffWithEmployeeInfo>,
    l: Seq<char>,
) -> Seq<TimeOffWithEmployeeInfo> {
    s.filter(|e: TimeOffWithEmployeeInfo| spec_department_label(e) == l)
}

/// One section per department label: the label line (set off in markdown
/// italics) followed by the bulleted list of that department's entries.
pub open spec fn spec_sections(
    labels: Seq<Seq<char>>,
    s: Seq<TimeOffWithEmployeeInfo>,
    date: Date,
) -> Seq<SpecBlock>
    decreases labels.len(),
{
    if labels.len() == 0 {
        Seq::empty()
    } else {
        seq![
            SpecBlock::Section("_"@ + labels[0] + "_"@),
            SpecBlock::Bullets(spec_items(entries_with_label(s, labels[0]), date)),
        ] + spec_sections(labels.drop_first(), s, date)
    }
}

/// The rendered document: a placeholder when nobody is away; otherwise the
/// header followed by one section per department, in label order.
pub open spec fn spec_document(s: Seq<TimeOffWithEmployeeInfo>, date: Date) -> Seq<SpecBlock> {
    if s.len() == 0 {
        seq![SpecBlock::Section("*Nobody is on leave today*"@)]
    } else {
        seq![SpecBlock::Header(":wave: On leave"@)] + spec_sections(labels_of(s), s, date)
    }
}

/// Headroom for the return-date computation of every entry.
pub open spec fn entry_renderable(e: TimeOffWithEmployeeInfo) -> bool {
    &&& e.time_off.dates_valid()
    &&& day_number(e.time_off.end) + return_gap(e.time_off.end) <= max_day_number()
}

fn return_note(e: &TimeOffWithEmployeeInfo, date: &Date) -> (r: String)
    requires
        date.valid(),
        entry_renderable(*e),
    ensures
        r@ == spec_return_note(spec_return_date(e.time_off.end), *date),
{
    let back = e.time_off.return_date();
    proof {
        lemma_day_number_bounds(back);
        lemma_day_number_bounds(*date);
    }
    let dnb = back.day_number();
    let dnd = date.day_number();
    if dnb == dnd + 1 {
        " - back tomorrow".to_owned()
    } else if dnd + 7 > dnb {
        let mut s = " - until ".to_owned();
        s.append(weekday_name(back.weekday_from_monday()));
        s
    } else if dnd + 7 == dnb {
        let mut s = " - until next ".to_owned();
        s.append(weekday_name(back.weekday_from_monday()));
        s
    } else {
        let mut s = " - until ".to_owned();
        let dom = day_of_month_string(back.day);
        s.append(dom.as_str());
        s.append(" ");
        s.append(month_name(back.month));
        proof {
            assert(s@ =~= spec_return_note(spec_return_date(e.time_off.end), *date));
        }
        s
    }
}

proof fn lemma_entries_with_label_push(
    s: Seq<TimeOffWithEmployeeInfo>,
    x: TimeOffWithEmployeeInfo,
    l: Seq<char>,
)
    ensures
        entries_with_label(s.push(x), l) == if spec_department_label(x) == l {
            entries_with_label(s, l).push(x)
        } else {
            entries_with_label(s, l)
        },
{
    reveal(Seq::filter);
    assert(s.push(x).drop_last() =~= s);
    assert(s.push(x).last() == x);
}

/// The bulleted list for the entries carrying one department label.
fn build_items(
    entries: &Vec<TimeOffWithEmployeeInfo>,
    label: &String,
    date: &Date,
) -> (r: Vec<ListItem>)
    requires
        date.valid(),
        forall|i: int| 0 <= i < entries@.len() ==> entry_renderable(#[trigger] entries@[i]),
    ensures
        items_view(r@) == spec_items(entries_with_label(entries@, label@), *date),
{
    let mut out: Vec<ListItem> = Vec::new();
    let n = entries.len();
    let mut idx: usize = 0;
    proof {
        reveal(Seq::filter);
        assert(entries@.take(0) =~= Seq::empty());
        assert(entries_with_label(Seq::empty(), label@) =~= Seq::empty());
        assert(items_view(Seq::empty()) =~= spec_items(Seq::empty(), *date));
    }
    while idx < n
        invariant
            idx <= n,
            n == entries@.len(),
            date.valid(),
            forall|i: int| 0 <= i < entries@.len() ==> entry_renderable(#[trigger] entries@[i]),
            items_view(out@) == spec_items(
                entries_with_label(entries@.take(idx as int), label@),
                *date,
            ),
        decreases n - idx,
    {
        proof {
            assert(entries@.take(idx + 1) =~= entries@.take(idx as int).push(
                entries@[idx as int],
            ));
            lemma_entries_with_label_push(
                entries@.take(idx as int),
                entries@[idx as int],
                label@,
            );
        }
        let dl = department_label(&entries[idx]);
        if dl == *label {
            let name = entries[idx].display_name();
            let note = return_note(&entries[idx], date);
            out.push(ListItem { name, note });
            proof {
                let e = entries@[idx as int];
                let prev = entries_with_label(entries@.take(idx as int), label@);
                assert(items_view(out@) =~= spec_items(prev.push(e), *date)) by {
                    assert(spec_items(prev.push(e), *date) =~= spec_items(prev, *date).push(
                        spec_item(e, *date),
                    ));
                    assert(items_view(out@) =~= items_view(out@.drop_last()).push(
                        out@.last()@,
                    ));
                }
            }
        }
        idx = idx + 1;
    }
    proof {
        assert(entries@.take(n as int) =~= entries@);
    }
    out
}

proof fn lemma_spec_sections_concat(
    l1: Seq<Seq<char>>,
    l2: Seq<Seq<char>>,
    s: Seq<TimeOffWithEmployeeInfo>,
    date: Date,
)
    ensures
        spec_sections(l1 + l2, s, date) == spec_sections(l1, s, date) + spec_sections(
            l2,
            s,
            date,
        ),
    decreases l1.len(),
{
    if l1.len() == 0 {
        assert(l1 + l2 =~= l2);
        assert(spec_sections(l1, s, date) + spec_sections(l2, s, date) =~= spec_sections(
            l2,
            s,
            date,
        ));
    } else {
        assert((l1 + l2)[0] == l1[0]);
        assert((l1 + l2).drop_first() =~= l1.drop_first() + l2);
        lemma_spec_sections_concat(l1.drop_first(), l2, s, date);
        assert(spec_sections(l1 + l2, s, date) =~= spec_sections(l1, s, date) + spec_sections(
            l2,
            s,
            date,
        ));
    }
}

/// Renders the enriched entries into the document: sorts by display name
/// (ties by employee identifier), groups by department in ascending label
/// order, and phrases every return date relative to `date`. With no
/// entries at all the document is a single placeholder block.
pub fn render(entries: Vec<TimeOffWithEmployeeInfo>, date: &Date) -> (r: Vec<Block>)
    requires
        date.valid(),
        forall|i: int| 0 <= i < entries@.len() ==> entry_renderable(#[trigger] entries@[i]),
    ensures
        blocks_view(r@) == spec_document(sort_entries_spec(entries@), *date),
{
    let ghost orig = entries@;
    let sorted = sort_entries(entries);
    proof {
        broadcast use vstd::seq_lib::group_to_multiset_ensures;

        assert forall|i: int| 0 <= i < sorted@.len() implies entry_renderable(
            #[trigger] sorted@[i],
        ) by {
            assert(sorted@.to_multiset().contains(sorted@[i]));
            assert(orig.contains(sorted@[i]));
        }
    }
    let ghost sv = sorted@;
    let mut blocks: Vec<Block> = Vec::new();
    if sorted.len() == 0 {
        blocks.push(Block::Section("*Nobody is on leave today*".to_owned()));
        proof {
            assert(blocks_view(blocks@) =~= spec_document(sv, *date));
        }
        return blocks;
    }
    blocks.push(Block::Header(":wave: On leave".to_owned()));
    let labels = collect_labels(&sorted);
    let ghost lv = strings_view(labels@);
    let m = labels.len();
    let mut li: usize = 0;
    proof {
        assert(lv.take(0) =~= Seq::empty());
        assert(blocks_view(blocks@) =~= seq![SpecBlock::Header(":wave: On leave"@)]
            + spec_sections(lv.take(0), sv, *date));
    }
    while li < m
        invariant
            li <= m,
            m == labels@.len(),
            date.valid(),
            sorted@ == sv,
            strings_view(labels@) == lv,
            forall|i: int| 0 <= i < sv.len() ==> entry_renderable(#[trigger] sv[i]),
            blocks_view(blocks@) == seq![SpecBlock::Header(":wave: On leave"@)] + spec_sections(
                lv.take(li as int),
                sv,
                *date,
            ),
        decreases m - li,
    {
        let label = labels[li].clone();
        let mut section_text = "_".to_owned();
        section_text.append(label.as_str());
        section_text.append("_");
        let items = build_items(&sorted, &label, date);
        let ghost before = blocks@;
        blocks.push(Block::Section(section_text));
        blocks.push(Block::Bullets(items));
        proof {
            assert(lv.take(li + 1) =~= lv.take(li as int) + seq![lv[li as int]]);
            lemma_spec_sections_concat(lv.take(li as int), seq![lv[li as int]], sv, *date);
            assert(seq![lv[li as int]].drop_first() =~= Seq::<Seq<char>>::empty());
            assert(seq![lv[li as int]].len() == 1);
            assert(seq![lv[li as int]][0] == lv[li as int]);
            assert(spec_sections(Seq::<Seq<char>>::empty(), sv, *date) =~= Seq::<
                SpecBlock,
            >::empty());
            assert(spec_sections(seq![lv[li as int]], sv, *date) =~= seq![
                SpecBlock::Section("_"@ + lv[li as int] + "_"@),
                SpecBlock::Bullets(spec_items(entries_with_label(sv, lv[li as int]), *date)),
            ]);
            assert(label@ == lv[li as int]);
            assert(blocks_view(blocks@) =~= blocks_view(before).push(
                SpecBlock::Section("_"@ + lv[li as int] + "_"@),
            ).push(SpecBlock::Bullets(spec_items(entries_with_label(sv, lv[li as int]), *date))));
            assert(blocks_view(blocks@) =~= seq![SpecBlock::Header(":wave: On leave"@)]
                + spec_sections(lv.take(li + 1), sv, *date));
        }
        li = li + 1;
    }
    proof {
        assert(lv.take(m as int) =~= lv);
    }
    blocks
}

/// At most one entry per employee: any two entries carrying the same
/// employee identifier are the same entry.
pub open spec fn one_entry_per_employee(s: Seq<TimeOffWithEmployeeInfo>) -> bool {
    forall|i: int, j: int|
        0 <= i < s.len() && 0 <= j < s.len() && (#[trigger] s[i]).time_off.employee_id == (
        #[trigger] s[j]).time_off.employee_id ==> s[i] == s[j]
}

/// Two sorted sequences of entries with the same elements, holding at most
/// one entry per employee, are the same sequence.
proof fn lemma_sorted_entries_unique(x: Seq<TimeOffWithEmployeeInfo>, y: Seq<TimeOffWithEmployeeInfo>)
    requires
        entries_sorted(x),
        entries_sorted(y),
        x.to_multiset() == y.to_multiset(),
        forall|u: TimeOffWithEmployeeInfo, v: TimeOffWithEmployeeInfo|
            x.to_multiset().contains(u) && x.to_multiset().contains(v)
                && u.time_off.employee_id == v.time_off.employee_id ==> u == v,
    ensures
        x =~= y,
    decreases x.len(),
{
    broadcast use vstd::seq_lib::group_to_multiset_ensures;
    broadcast use vstd::multiset::group_multiset_axioms;

    if x.len() == 0 {
        assert(x.to_multiset().len() == 0);
        assert(y.len() == 0);
    } else {
        assert(x.to_multiset().contains(x[0])) by {
            assert(x.contains(x[0]));
        }
        assert(y.len() > 0) by {
            assert(x.to_multiset().len() > 0);
        }
        assert(y.to_multiset().contains(y[0])) by {
            assert(y.contains(y[0]));
        }
        assert(x.contains(y[0]));
        assert(y.contains(x[0]));
        let i = choose|i: int| 0 <= i < x.len() && x[i] == y[0];
        let j = choose|j: int| 0 <= j < y.len() && y[j] == x[0];
        assert(entry_le(x[0], x[i]) || i == 0);
        assert(entry_le(y[0], y[j]) || j == 0);
        assert(entry_le(x[0], y[0]) || x[0] == y[0]);
        assert(entry_le(y[0], x[0]) || x[0] == y[0]);
        if x[0] != y[0] {
            let na = x[0].spec_display_name();
            let nb = y[0].spec_display_name();
            if na != nb {
                lemma_chars_le_antisymmetric(na, nb);
            }
            assert(x[0].time_off.employee_id == y[0].time_off.employee_id);
            assert(x.to_multiset().contains(y[0]));
            assert(false);
        }
        assert(x.drop_first() =~= x.remove(0));
        assert(y.drop_first() =~= y.remove(0));
        assert(x.remove(0).to_multiset() == x.to_multiset().remove(x[0]));
        assert(y.remove(0).to_multiset() == y.to_multiset().remove(y[0]));
        assert(entries_sorted(x.drop_first())) by {
            assert(forall|p: int, q: int|
                0 <= p < q < x.drop_first().len() ==> entry_le(
                    #[trigger] x.drop_first()[p],
                    #[trigger] x.drop_first()[q],
                ));
        }
        assert(entries_sorted(y.drop_first())) by {
            assert(forall|p: int, q: int|
                0 <= p < q < y.drop_first().len() ==> entry_le(
                    #[trigger] y.drop_first()[p],
                    #[trigger] y.drop_first()[q],
                ));
        }
        assert forall|u: TimeOffWithEmployeeInfo, v: TimeOffWithEmployeeInfo|
            x.drop_first().to_multiset().contains(u) && x.drop_first().to_multiset().contains(v)
                && u.time_off.employee_id == v.time_off.employee_id implies u == v by {
            assert(x.to_multiset().contains(u));
            assert(x.to_multiset().contains(v));
        }
        lemma_sorted_entries_unique(x.drop_first(), y.drop_first());
        assert(x.len() == y.len());
        assert forall|k: int| 0 <= k < x.len() implies x[k] == y[k] by {
            if k > 0 {
                assert(x[k] == x.drop_first()[k - 1]);
                assert(y[k] == y.drop_first()[k - 1]);
            }
        }
        assert(x =~= y);
    }
}

/// Law: rendering is deterministic. Two inputs holding the same entries in
/// any order — with at most one entry per employee, as the merger
/// guarantees — yield the same document: the same department order and the
/// same order within each department.
pub proof fn lemma_render_deterministic(
    a: Seq<TimeOffWithEmployeeInfo>,
    b: Seq<TimeOffWithEmployeeInfo>,
    date: Date,
)
    requires
        a.to_multiset() == b.to_multiset(),
        one_entry_per_employee(a),
    ensures
        sort_entries_spec(a) == sort_entries_spec(b),
        spec_document(sort_entries_spec(a), date) == spec_document(sort_entries_spec(b), date),
{
    broadcast use vstd::seq_lib::group_to_multiset_ensures;

    lemma_sort_entries_spec_ensures(a);
    lemma_sort_entries_spec_ensures(b);
    assert forall|u: TimeOffWithEmployeeInfo, v: TimeOffWithEmployeeInfo|
        sort_entries_spec(a).to_multiset().contains(u) && sort_entries_spec(
            a,
        ).to_multiset().contains(v) && u.time_off.employee_id == v.time_off.employee_id
        implies u == v by {
        assert(a.contains(u));
        assert(a.contains(v));
        let i = choose|i: int| 0 <= i < a.len() && a[i] == u;
        let j = choose|j: int| 0 <= j < a.len() && a[j] == v;
        assert(a[i] == a[j]);
    }
    lemma_sorted_entries_unique(sort_entries_spec(a), sort_entries_spec(b));
}

} // verus!
