//! The message sections of one file, kept in the order of their names.
use crate::json;
use crate::json::Entries;
use crate::text;
use vstd::prelude::*;
use vstd::string::*;

verus! {

/// What a map of entries holds: labels with the JSON texts of their entries.
pub type EntryList = Seq<(Seq<char>, Seq<char>)>;

/// A section's name and what its entries hold.
pub type SectionModel = (Seq<char>, EntryList);

/// A named group of message entries.
pub struct Section {
    pub name: String,
    pub entries: Entries,
}

impl Section {
    /// The section's name and what its entries hold.
    pub open spec fn view(&self) -> SectionModel {
        (self.name@, json::entry_list(self.entries))
    }
}

/// What a list of sections holds.
pub open spec fn section_list(list: Seq<Section>) -> Seq<SectionModel> {
    list.map_values(|s: Section| s@)
}

/// Whether the names in a list of sections are strictly ascending.
pub open spec fn ascending(list: Seq<SectionModel>) -> bool {
    forall|i: int, j: int|
        0 <= i < j < list.len() ==> text::text_less(#[trigger] list[i].0, #[trigger] list[j].0)
}

/// What `list` holds under a name: the entries of the last section so called.
pub open spec fn last_entries(
    list: Seq<SectionModel>,
    name: Seq<char>,
) -> Option<EntryList>
    decreases list.len(),
{
    if list.len() == 0 {
        None
    } else if list.last().0 == name {
        Some(list.last().1)
    } else {
        last_entries(list.drop_last(), name)
    }
}

/// Whether `table` is `list` as a table: in the order of names, each name
/// once, with the entries of the last section so called.
pub open spec fn tabulates(
    table: Seq<SectionModel>,
    list: Seq<SectionModel>,
) -> bool {
    &&& ascending(table)
    &&& forall|s: SectionModel|
        #[trigger] table.contains(s) <==> last_entries(list, s.0) == Some(s.1)
}

/// Sections in the order of their names, each name at most once.
pub struct Sections {
    list: Vec<Section>,
}

impl Sections {
    /// The names and entries, in order.
    pub closed spec fn view(&self) -> Seq<SectionModel> {
        section_list(self.list@)
    }

    /// The names are strictly ascending.
    pub open spec fn wf(self) -> bool {
        ascending(self@)
    }

    /// No sections.
    pub fn new() -> (r: Sections)
        ensures
            r.wf(),
            r@.len() == 0,
    {
        Sections { list: Vec::new() }
    }

    /// Number of sections.
    pub fn len(&self) -> (r: usize)
        ensures
            r == self@.len(),
    {
        self.list.len()
    }

    /// Tells whether there are no sections.
    pub fn is_empty(&self) -> (r: bool)
        ensures
            r == (self@.len() == 0),
    {
        self.list.len() == 0
    }

    /// The section at a position in the order of names.
    pub fn get(&self, index: usize) -> (r: &Section)
        requires
            index < self@.len(),
        ensures
            r@ == self@[index as int],
    {
        &self.list[index]
    }

    /// Puts a section in its place; one of the same name gives way to it.
    pub fn insert(&mut self, section: Section)
        requires
            old(self).wf(),
        ensures
            final(self).wf(),
            forall|s: SectionModel|
                #[trigger] final(self)@.contains(s) <==> s == section@ || (old(self)@.contains(s)
                    && s.0 != section@.0),
    {
        let ghost before = self@;
        let ghost added = section@;
        let mut at: usize = 0;
        while at < self.list.len() && text::is_less(
            self.list[at].name.as_str(),
            section.name.as_str(),
        )
            invariant
                at <= self.list@.len(),
                self@ == before,
                before == section_list(self.list@),
                added == section@,
                forall|i: int| 0 <= i < at ==> text::text_less(#[trigger] before[i].0, added.0),
            decreases self.list@.len() - at,
        {
            at = at + 1;
        }
        if at < self.list.len() && self.list[at].name == section.name {
            self.list[at] = section;
            assert(self@ =~= before.update(at as int, added));
            proof {
                assert forall|i: int, j: int| 0 <= i < j < self@.len() implies text::text_less(
                    #[trigger] self@[i].0,
                    #[trigger] self@[j].0,
                ) by {
                    assert(text::text_less(before[i].0, before[j].0));
                }
                assert forall|s: SectionModel| #[trigger]
                    self@.contains(s) <==> s == added || (before.contains(s) && s.0 != added.0) by {
                    if self@.contains(s) {
                        let i = choose|i: int| 0 <= i < self@.len() && self@[i] == s;
                        if i != at {
                            text::lemma_text_order(before[i].0, added.0);
                            assert(before[i] == s);
                            if i > at {
                                assert(text::text_less(before[at as int].0, before[i].0));
                            }
                        }
                    }
                    if s == added {
                        assert(self@[at as int] == s);
                    }
                    if before.contains(s) && s.0 != added.0 {
                        let i = choose|i: int| 0 <= i < before.len() && before[i] == s;
                        assert(self@[i] == s);
                    }
                }
            }
        } else {
            self.list.insert(at, section);
            assert(self@ =~= before.insert(at as int, added));
            proof {
                if at < before.len() {
                    text::lemma_text_order(before[at as int].0, added.0);
                }
                assert forall|j: int| at <= j < before.len() implies text::text_less(
                    added.0,
                    #[trigger] before[j].0,
                ) by {
                    if j > at {
                        assert(text::text_less(before[at as int].0, before[j].0));
                        text::lemma_text_transitive(added.0, before[at as int].0, before[j].0);
                    }
                }
                assert forall|i: int, j: int| 0 <= i < j < self@.len() implies text::text_less(
                    #[trigger] self@[i].0,
                    #[trigger] self@[j].0,
                ) by {
                    let x = if i < at { i } else { i - 1 };
                    let y = if j < at { j } else { j - 1 };
                    if i != at && j != at {
                        assert(text::text_less(before[x].0, before[y].0));
                    } else if i == at {
                        assert(text::text_less(added.0, before[y].0));
                    } else {
                        assert(text::text_less(before[x].0, added.0));
                    }
                }
                assert forall|s: SectionModel| #[trigger]
                    self@.contains(s) <==> s == added || (before.contains(s) && s.0 != added.0) by {
                    if self@.contains(s) {
                        let i = choose|i: int| 0 <= i < self@.len() && self@[i] == s;
                        if i < at {
                            assert(before[i] == s);
                            text::lemma_text_order(before[i].0, added.0);
                        } else if i > at {
                            assert(before[i - 1] == s);
                            text::lemma_text_order(before[i - 1].0, added.0);
                        }
                    }
                    if s == added {
                        assert(self@[at as int] == s);
                    }
                    if before.contains(s) && s.0 != added.0 {
                        let i = choose|i: int| 0 <= i < before.len() && before[i] == s;
                        if i < at {
                            assert(self@[i] == s);
                        } else {
                            assert(self@[i + 1] == s);
                        }
                    }
                }
            }
        }
    }
}

impl Sections {
    /// The table of a list of sections: of those with the same name the last
    /// one stays.
    pub fn from_list(list: Vec<Section>) -> (r: Sections)
        ensures
            r.wf(),
            tabulates(r@, section_list(list@)),
    {
        let ghost all = section_list(list@);
        let mut table = Sections::new();
        assert(tabulates(table@, all.take(0)));
        for section in it: list.into_iter()
            invariant
                it.seq() == list@,
                all == section_list(list@),
                table.wf(),
                tabulates(table@, all.take(it.index())),
        {
            let ghost before = table@;
            let ghost k = it.index();
            assert(all.take(k + 1) =~= all.take(k).push(section@));
            table.insert(section);
            proof {
                lemma_insertion_tabulates(before, table@, all.take(k), section@);
            }
        }
        assert(all.take(all.len() as int) =~= all);
        table
    }
}

/// Putting a section into the table of a list gives the table of the list
/// with the section at its end.
proof fn lemma_insertion_tabulates(
    before: Seq<SectionModel>,
    after: Seq<SectionModel>,
    list: Seq<SectionModel>,
    added: SectionModel,
)
    requires
        tabulates(before, list),
        ascending(after),
        forall|s: SectionModel| #[trigger]
            after.contains(s) <==> s == added || (before.contains(s) && s.0 != added.0),
    ensures
        tabulates(after, list.push(added)),
{
    let longer = list.push(added);
    assert(longer.drop_last() =~= list);
    assert forall|s: SectionModel| #[trigger]
        after.contains(s) <==> last_entries(longer, s.0) == Some(s.1) by {
        if s.0 != added.0 {
            assert(before.contains(s) <==> last_entries(list, s.0) == Some(s.1));
        }
    }
}

/// A table is determined by what it holds: two lists with strictly ascending
/// names and the same sections are the same.
pub proof fn tables_agree(
    a: Seq<SectionModel>,
    b: Seq<SectionModel>,
)
    requires
        ascending(a),
        ascending(b),
        forall|s: SectionModel|
            #![trigger a.contains(s)]
            #![trigger b.contains(s)]
            a.contains(s) <==> b.contains(s),
    ensures
        a == b,
    decreases a.len(),
{
    if a.len() == 0 {
        if b.len() > 0 {
            assert(b.contains(b[0]));
        }
        assert(a =~= b);
    } else {
        assert(a.contains(a.last()));
        assert(b.contains(a.last()));
        let k = choose|k: int| 0 <= k < b.len() && b[k] == a.last();
        assert(b.contains(b.last()));
        assert(a.contains(b.last()));
        let m = choose|m: int| 0 <= m < a.len() && a[m] == b.last();
        if k < b.len() - 1 {
            assert(text::text_less(b[k].0, b[b.len() - 1].0));
            if m < a.len() - 1 {
                assert(text::text_less(a[m].0, a[a.len() - 1].0));
            }
            text::lemma_text_order(a.last().0, b.last().0);
        }
        assert(a.last() == b.last());
        let x = a.drop_last();
        let y = b.drop_last();
        assert forall|s: SectionModel|
            #![trigger x.contains(s)]
            #![trigger y.contains(s)]
            x.contains(s) <==> y.contains(s) by {
            if x.contains(s) {
                let i = choose|i: int| 0 <= i < x.len() && x[i] == s;
                assert(a[i] == s);
                assert(b.contains(s));
                let j = choose|j: int| 0 <= j < b.len() && b[j] == s;
                assert(text::text_less(a[i].0, a[a.len() - 1].0));
                text::lemma_text_order(s.0, a.last().0);
                assert(y[j] == s);
            }
            if y.contains(s) {
                let i = choose|i: int| 0 <= i < y.len() && y[i] == s;
                assert(b[i] == s);
                assert(a.contains(s));
                let j = choose|j: int| 0 <= j < a.len() && a[j] == s;
                assert(text::text_less(b[i].0, b[b.len() - 1].0));
                text::lemma_text_order(s.0, b.last().0);
                assert(x[j] == s);
            }
        }
        tables_agree(x, y);
        assert(a =~= x.push(a.last()));
        assert(b =~= y.push(b.last()));
    }
}

/// A list whose names are strictly ascending is its own table.
pub proof fn ascending_list_is_its_table(list: Seq<SectionModel>)
    requires
        ascending(list),
    ensures
        tabulates(list, list),
    decreases list.len(),
{
    if list.len() > 0 {
        let shorter = list.drop_last();
        ascending_list_is_its_table(shorter);
        assert forall|s: SectionModel| #[trigger]
            list.contains(s) <==> last_entries(list, s.0) == Some(s.1) by {
            if list.contains(s) {
                let i = choose|i: int| 0 <= i < list.len() && list[i] == s;
                if i < list.len() - 1 {
                    assert(shorter[i] == s);
                    assert(shorter.contains(s));
                    assert(text::text_less(list[i].0, list[list.len() - 1].0));
                    text::lemma_text_order(list[i].0, list.last().0);
                }
            }
            if last_entries(list, s.0) == Some(s.1) {
                if list.last().0 == s.0 {
                    assert(list[list.len() - 1] == s);
                } else {
                    assert(shorter.contains(s));
                    let i = choose|i: int| 0 <= i < shorter.len() && shorter[i] == s;
                    assert(list[i] == s);
                }
            }
        }
    } else {
        assert forall|s: SectionModel| #[trigger]
            list.contains(s) <==> last_entries(list, s.0) == Some(s.1) by {}
    }
}

/// The table of a list keeps, under each name, the section that comes last in
/// the list, and nothing else.
pub proof fn table_keeps_the_last(
    table: Seq<SectionModel>,
    list: Seq<SectionModel>,
    s: SectionModel,
)
    requires
        tabulates(table, list),
    ensures
        table.contains(s) <==> exists|i: int|
            {
                &&& 0 <= i < list.len()
                &&& #[trigger] list[i] == s
                &&& forall|j: int| i < j < list.len() ==> (#[trigger] list[j]).0 != s.0
            },
{
    lemma_last_entries(list, s);
    assert(table.contains(s) <==> last_entries(list, s.0) == Some(s.1));
}

proof fn lemma_last_entries(list: Seq<SectionModel>, s: SectionModel)
    ensures
        last_entries(list, s.0) == Some(s.1) <==> exists|i: int|
            {
                &&& 0 <= i < list.len()
                &&& #[trigger] list[i] == s
                &&& forall|j: int| i < j < list.len() ==> (#[trigger] list[j]).0 != s.0
            },
    decreases list.len(),
{
    if list.len() > 0 {
        let before = list.drop_last();
        let n = list.len() - 1;
        lemma_last_entries(before, s);
        if list[n].0 == s.0 {
            if list[n].1 == s.1 {
                assert(list[n] == s);
            }
        } else {
            if last_entries(before, s.0) == Some(s.1) {
                let i = choose|i: int|
                    {
                        &&& 0 <= i < before.len()
                        &&& #[trigger] before[i] == s
                        &&& forall|j: int| i < j < before.len() ==> (#[trigger] before[j]).0 != s.0
                    };
                assert(list[i] == s);
                assert forall|j: int| i < j < list.len() implies (#[trigger] list[j]).0 != s.0 by {
                    if j < n {
                        assert(before[j] == list[j]);
                    }
                }
            }
            if exists|i: int|
                {
                    &&& 0 <= i < list.len()
                    &&& #[trigger] list[i] == s
                    &&& forall|j: int| i < j < list.len() ==> (#[trigger] list[j]).0 != s.0
                } {
                let i = choose|i: int|
                    {
                        &&& 0 <= i < list.len()
                        &&& #[trigger] list[i] == s
                        &&& forall|j: int| i < j < list.len() ==> (#[trigger] list[j]).0 != s.0
                    };
                assert(i < n);
                assert(before[i] == s);
                assert forall|j: int| i < j < before.len() implies (#[trigger] before[j]).0
                    != s.0 by {
                    assert(before[j] == list[j]);
                }
            }
        }
    }
}

/// What a list of sections holds are the names and entries of its sections,
/// each in its place.
pub proof fn lists_hold_their_sections(list: Seq<Section>)
    ensures
        section_list(list).len() == list.len(),
        forall|i: int|
            0 <= i < list.len() ==> (#[trigger] section_list(list)[i]).0 == list[i].name@
                && section_list(list)[i].1 == json::entry_list(list[i].entries),
{
}

} // verus!
