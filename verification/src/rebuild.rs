//! Rebuilding a mod: which entries its archive consists of.
//!
//! The entries of the backup are taken over, but for the message files that
//! were converted again. These are added at the end.
use crate::names;
use crate::text;
use vstd::prelude::*;
use vstd::string::*;

verus! {

/// An entry of the backup.
pub struct BackupEntry {
    /// Its name, with the path.
    pub name: String,
    /// Whether it is a directory.
    pub is_dir: bool,
}

impl BackupEntry {
    /// Name, and whether it is a directory.
    pub open spec fn view(&self) -> (Seq<char>, bool) {
        (self.name@, self.is_dir)
    }
}

/// What the entries of a backup hold.
pub open spec fn backup_list(backup: Seq<BackupEntry>) -> Seq<(Seq<char>, bool)> {
    backup.map_values(|e: BackupEntry| e@)
}

/// How an entry of the rebuilt archive comes about.
#[derive(Clone, Copy, Debug, PartialEq, Eq, Structural)]
pub enum Action {
    /// Add the directory at this place in the backup.
    Directory(usize),
    /// Copy the file at this place in the backup.
    Copy(usize),
    /// Add the converted message file with this number.
    Add(usize),
}

/// How an entry of the backup is taken over.
pub open spec fn taken_over(entry: (Seq<char>, bool), index: int) -> Action {
    if entry.1 {
        Action::Directory(index as usize)
    } else {
        Action::Copy(index as usize)
    }
}

/// How the entries of a backup are taken over: those with one of the added
/// names are left out.
pub open spec fn kept(backup: Seq<(Seq<char>, bool)>, added: Seq<Seq<char>>) -> Seq<Action>
    decreases backup.len(),
{
    if backup.len() == 0 {
        Seq::empty()
    } else {
        let before = kept(backup.drop_last(), added);
        if added.contains(backup.last().0) {
            before
        } else {
            before.push(taken_over(backup.last(), backup.len() - 1))
        }
    }
}

/// The entries of the rebuilt archive: what is kept, then what is added.
pub open spec fn plan(backup: Seq<(Seq<char>, bool)>, added: Seq<Seq<char>>) -> Seq<Action> {
    kept(backup, added) + Seq::new(added.len(), |k: int| Action::Add(k as usize))
}

/// The name of an entry of the rebuilt archive.
pub open spec fn action_name(
    backup: Seq<(Seq<char>, bool)>,
    added: Seq<Seq<char>>,
    action: Action,
) -> Seq<char> {
    match action {
        Action::Directory(i) => backup[i as int].0,
        Action::Copy(i) => backup[i as int].0,
        Action::Add(k) => added[k as int],
    }
}

/// The entry names that converted JSON files are added under.
pub open spec fn entry_names(stems: Seq<Seq<char>>) -> Seq<Seq<char>> {
    stems.map_values(|s: Seq<char>| names::message_entry(s))
}

/// The names that the message files out of JSON files with these stems are
/// added under; `None` where there are no JSON files to convert.
pub fn added_names(stems: &Vec<String>) -> (r: Option<Vec<String>>)
    ensures
        match r {
            Some(list) => stems@.len() > 0 && text::texts(list@) == entry_names(
                text::texts(stems@),
            ),
            None => stems@.len() == 0,
        },
{
    if stems.len() == 0 {
        return None;
    }
    let ghost all = entry_names(text::texts(stems@));
    let mut list: Vec<String> = Vec::new();
    let mut i: usize = 0;
    assert(text::texts(list@) =~= all.take(0));
    while i < stems.len()
        invariant
            i <= stems@.len(),
            all == entry_names(text::texts(stems@)),
            text::texts(list@) == all.take(i as int),
        decreases stems@.len() - i,
    {
        let ghost before = list@;
        let name = names::entry_name(stems[i].as_str());
        list.push(name);
        proof {
            text::lemma_texts_push(before, name);
            assert(all[i as int] == name@);
            assert(all.take(i + 1) =~= all.take(i as int).push(name@));
        }
        i = i + 1;
    }
    assert(all.take(i as int) =~= all);
    Some(list)
}

/// Tells whether a list has a text in it.
fn has_text(list: &Vec<String>, s: &String) -> (r: bool)
    ensures
        r == text::texts(list@).contains(s@),
{
    let ghost all = text::texts(list@);
    let mut i: usize = 0;
    while i < list.len()
        invariant
            i <= list@.len(),
            all == text::texts(list@),
            forall|j: int| 0 <= j < i ==> (#[trigger] all[j]) != s@,
        decreases list@.len() - i,
    {
        if list[i] == *s {
            assert(all[i as int] == s@);
            return true;
        }
        i = i + 1;
    }
    false
}

/// The entries of the archive that a mod is rebuilt into, in order.
///
/// Each entry of the backup is taken over, unless a converted message file
/// has its name. The converted message files follow.
pub fn rebuild_plan(backup: &Vec<BackupEntry>, added: &Vec<String>) -> (r: Vec<Action>)
    ensures
        r@ == plan(backup_list(backup@), text::texts(added@)),
{
    let ghost all = backup_list(backup@);
    let ghost new = text::texts(added@);
    let mut actions: Vec<Action> = Vec::new();
    let mut i: usize = 0;
    assert(all.take(0) =~= Seq::empty());
    while i < backup.len()
        invariant
            i <= backup@.len(),
            all == backup_list(backup@),
            new == text::texts(added@),
            actions@ == kept(all.take(i as int), new),
        decreases backup@.len() - i,
    {
        assert(all.take(i + 1).drop_last() =~= all.take(i as int));
        assert(all.take(i + 1).last() == backup@[i as int]@);
        if !has_text(added, &backup[i].name) {
            if backup[i].is_dir {
                actions.push(Action::Directory(i));
            } else {
                actions.push(Action::Copy(i));
            }
        }
        i = i + 1;
    }
    assert(all.take(i as int) =~= all);
    let ghost first = actions@;
    let ghost tail = Seq::new(new.len(), |k: int| Action::Add(k as usize));
    let mut k: usize = 0;
    assert(actions@ =~= first + tail.take(0));
    while k < added.len()
        invariant
            k <= added@.len(),
            new == text::texts(added@),
            tail == Seq::new(new.len(), |k: int| Action::Add(k as usize)),
            actions@ == first + tail.take(k as int),
        decreases added@.len() - k,
    {
        actions.push(Action::Add(k));
        assert(tail.take(k + 1) =~= tail.take(k as int).push(Action::Add(k)));
        assert(actions@ =~= first + tail.take(k + 1));
        k = k + 1;
    }
    assert(tail.take(k as int) =~= tail);
    actions
}

proof fn lemma_kept(backup: Seq<(Seq<char>, bool)>, added: Seq<Seq<char>>, action: Action)
    requires
        backup.len() <= usize::MAX,
    ensures
        kept(backup, added).contains(action) <==> exists|i: int|
            0 <= i < backup.len() && !added.contains(#[trigger] backup[i].0) && action
                == taken_over(backup[i], i),
    decreases backup.len(),
{
    let all = kept(backup, added);
    if backup.len() > 0 {
        let shorter = backup.drop_last();
        let before = kept(shorter, added);
        let n = backup.len() - 1;
        lemma_kept(shorter, added, action);
        if all.contains(action) {
            let j = choose|j: int| 0 <= j < all.len() && all[j] == action;
            if j < before.len() {
                assert(before[j] == action);
                assert(before.contains(action));
                let i = choose|i: int|
                    0 <= i < shorter.len() && !added.contains(#[trigger] shorter[i].0) && action
                        == taken_over(shorter[i], i);
                assert(backup[i] == shorter[i]);
                assert(!added.contains(backup[i].0));
            } else {
                assert(!added.contains(backup[n].0));
            }
        }
        if exists|i: int|
            0 <= i < backup.len() && !added.contains(#[trigger] backup[i].0) && action
                == taken_over(backup[i], i) {
            let i = choose|i: int|
                0 <= i < backup.len() && !added.contains(#[trigger] backup[i].0) && action
                    == taken_over(backup[i], i);
            if i < n {
                assert(shorter[i] == backup[i]);
                assert(!added.contains(shorter[i].0));
                assert(before.contains(action));
                let j = choose|j: int| 0 <= j < before.len() && before[j] == action;
                assert(all[j] == action);
            } else {
                assert(all[all.len() - 1] == action);
            }
        }
    }
}

/// All other files stay untouched: an entry of the backup is taken over, as
/// the file or directory that it is, exactly if no converted message file has
/// its name.
pub proof fn other_entries_stay(
    backup: Seq<(Seq<char>, bool)>,
    added: Seq<Seq<char>>,
    index: int,
)
    requires
        0 <= index < backup.len() <= usize::MAX,
    ensures
        plan(backup, added).contains(taken_over(backup[index], index)) <==> !added.contains(
            backup[index].0,
        ),
{
    let action = taken_over(backup[index], index);
    let front = kept(backup, added);
    let whole = plan(backup, added);
    lemma_kept(backup, added, action);
    if !added.contains(backup[index].0) {
        assert(front.contains(action));
        let j = choose|j: int| 0 <= j < front.len() && front[j] == action;
        assert(whole[j] == action);
    }
    if whole.contains(action) {
        let j = choose|j: int| 0 <= j < whole.len() && whole[j] == action;
        assert(j < front.len());
        assert(front[j] == action);
        assert(front.contains(action));
        let i = choose|i: int|
            0 <= i < backup.len() && !added.contains(#[trigger] backup[i].0) && action
                == taken_over(backup[i], i);
        assert(i == index);
    }
}

/// Every converted message file is added, after everything that is kept.
pub proof fn converted_files_are_added(
    backup: Seq<(Seq<char>, bool)>,
    added: Seq<Seq<char>>,
    index: int,
)
    requires
        0 <= index < added.len(),
    ensures
        plan(backup, added).len() == kept(backup, added).len() + added.len(),
        plan(backup, added)[kept(backup, added).len() + index] == Action::Add(index as usize),
{
}

/// How far the actions of `kept` reach: they are about entries of the backup,
/// in ascending order, and none of them is replaced.
proof fn lemma_kept_in_order(backup: Seq<(Seq<char>, bool)>, added: Seq<Seq<char>>)
    requires
        backup.len() <= usize::MAX,
    ensures
        forall|j: int|
            0 <= j < kept(backup, added).len() ==> 0 <= place_of(
                #[trigger] kept(backup, added)[j],
            ) < backup.len() && !(kept(backup, added)[j] is Add) && !added.contains(
                backup[place_of(kept(backup, added)[j])].0,
            ),
        forall|j: int, k: int|
            0 <= j < k < kept(backup, added).len() ==> place_of(#[trigger] kept(backup, added)[j])
                < place_of(#[trigger] kept(backup, added)[k]),
    decreases backup.len(),
{
    if backup.len() > 0 {
        let shorter = backup.drop_last();
        lemma_kept_in_order(shorter, added);
        let before = kept(shorter, added);
        let all = kept(backup, added);
        assert forall|j: int| 0 <= j < all.len() implies 0 <= place_of(#[trigger] all[j])
            < backup.len() && !(all[j] is Add) && !added.contains(backup[place_of(all[j])].0) by {
            if j < before.len() {
                assert(all[j] == before[j]);
                assert(shorter[place_of(before[j])] == backup[place_of(before[j])]);
            }
        }
        assert forall|j: int, k: int| 0 <= j < k < all.len() implies place_of(#[trigger] all[j])
            < place_of(#[trigger] all[k]) by {
            assert(all[j] == before[j]);
            if k < before.len() {
                assert(all[k] == before[k]);
            }
        }
    }
}

/// The place in the backup that an action takes its entry from.
pub open spec fn place_of(action: Action) -> int {
    match action {
        Action::Directory(i) => i as int,
        Action::Copy(i) => i as int,
        Action::Add(_) => -1,
    }
}

/// No name occurs twice in the rebuilt archive, if none does in the backup
/// and among the converted message files.
pub proof fn rebuilt_names_are_distinct(
    backup: Seq<(Seq<char>, bool)>,
    added: Seq<Seq<char>>,
    a: int,
    b: int,
)
    requires
        backup.len() <= usize::MAX,
        added.len() <= usize::MAX,
        forall|i: int, j: int|
            0 <= i < j < backup.len() ==> (#[trigger] backup[i]).0 != (#[trigger] backup[j]).0,
        added.no_duplicates(),
        0 <= a < b < plan(backup, added).len(),
    ensures
        action_name(backup, added, plan(backup, added)[a]) != action_name(
            backup,
            added,
            plan(backup, added)[b],
        ),
{
    let front = kept(backup, added);
    let whole = plan(backup, added);
    lemma_kept_in_order(backup, added);
    if b < front.len() {
        assert(whole[a] == front[a] && whole[b] == front[b]);
        assert(place_of(front[a]) < place_of(front[b]));
        assert(backup[place_of(front[a])].0 != backup[place_of(front[b])].0);
    } else if a < front.len() {
        assert(whole[a] == front[a]);
        assert(!added.contains(backup[place_of(front[a])].0));
        assert(added.contains(added[b - front.len()]));
    } else {
        assert(added[a - front.len()] != added[b - front.len()]);
    }
}

/// A file of the backup that no converted message file replaces is copied, and
/// no directory is made of it; a directory is added, and not copied. Of an
/// entry that is replaced nothing is taken over.
pub proof fn files_stay_files(backup: Seq<(Seq<char>, bool)>, added: Seq<Seq<char>>, index: int)
    requires
        0 <= index < backup.len() <= usize::MAX,
    ensures
        ({
            let (name, is_dir) = backup[index];
            let replaced = exists|k: int| 0 <= k < added.len() && #[trigger] added[k] == name;
            let all = plan(backup, added);
            let copied = exists|j: int|
                0 <= j < all.len() && #[trigger] all[j] == Action::Copy(index as usize);
            let made = exists|j: int|
                0 <= j < all.len() && #[trigger] all[j] == Action::Directory(index as usize);
            &&& copied == (!replaced && !is_dir)
            &&& made == (!replaced && is_dir)
        }),
{
    let (name, is_dir) = backup[index];
    let front = kept(backup, added);
    let all = plan(backup, added);
    let copy = Action::Copy(index as usize);
    let make = Action::Directory(index as usize);
    assert(added.contains(name) == exists|k: int|
        0 <= k < added.len() && #[trigger] added[k] == name);
    lemma_kept(backup, added, copy);
    lemma_kept(backup, added, make);
    assert forall|action: Action| action == copy || action == make implies (exists|j: int|
        0 <= j < all.len() && #[trigger] all[j] == action) == front.contains(action) by {
        if front.contains(action) {
            let j = choose|j: int| 0 <= j < front.len() && front[j] == action;
            assert(all[j] == action);
        }
        if exists|j: int| 0 <= j < all.len() && #[trigger] all[j] == action {
            let j = choose|j: int| 0 <= j < all.len() && #[trigger] all[j] == action;
            assert(j < front.len());
            assert(front[j] == action);
        }
    }
    assert(front.contains(copy) == (!added.contains(name) && !is_dir)) by {
        if front.contains(copy) {
            let i = choose|i: int|
                0 <= i < backup.len() && !added.contains(#[trigger] backup[i].0) && copy
                    == taken_over(backup[i], i);
            assert(i == index);
        }
        if !added.contains(name) && !is_dir {
            assert(!added.contains(backup[index].0));
            assert(copy == taken_over(backup[index], index));
        }
    }
    assert(front.contains(make) == (!added.contains(name) && is_dir)) by {
        if front.contains(make) {
            let i = choose|i: int|
                0 <= i < backup.len() && !added.contains(#[trigger] backup[i].0) && make
                    == taken_over(backup[i], i);
            assert(i == index);
        }
        if !added.contains(name) && is_dir {
            assert(!added.contains(backup[index].0));
            assert(make == taken_over(backup[index], index));
        }
    }
}

/// The rebuilt archive has the kept entries of the backup first, in the order
/// of the backup and each once, then all converted message files, in their
/// order and each once, and nothing else.
pub proof fn entries_come_in_order(backup: Seq<(Seq<char>, bool)>, added: Seq<Seq<char>>)
    requires
        backup.len() <= usize::MAX,
        added.len() <= usize::MAX,
    ensures
        plan(backup, added).len() >= added.len(),
        forall|k: int|
            0 <= k < added.len() ==> #[trigger] plan(backup, added)[plan(backup, added).len()
                - added.len() + k] == Action::Add(k as usize),
        forall|j: int|
            0 <= j < plan(backup, added).len() - added.len() ==> match #[trigger] plan(
                backup,
                added,
            )[j] {
                Action::Copy(i) => i < backup.len(),
                Action::Directory(i) => i < backup.len(),
                Action::Add(_) => false,
            },
        forall|j: int, k: int|
            0 <= j < k < plan(backup, added).len() - added.len() ==> place_of(
                #[trigger] plan(backup, added)[j],
            ) < place_of(#[trigger] plan(backup, added)[k]),
{
    let front = kept(backup, added);
    let all = plan(backup, added);
    lemma_kept_in_order(backup, added);
    assert forall|j: int| 0 <= j < front.len() implies #[trigger] all[j] == front[j] by {}
    assert forall|j: int, k: int| 0 <= j < k < all.len() - added.len() implies place_of(
        #[trigger] all[j],
    ) < place_of(#[trigger] all[k]) by {
        assert(all[j] == front[j] && all[k] == front[k]);
    }
}

/// A converted JSON file is added as `Message/<stem>.sarc`: eight characters
/// in front of the stem, five behind it.
pub proof fn converted_files_have_their_names(stems: Seq<Seq<char>>, index: int)
    requires
        0 <= index < stems.len(),
    ensures
        entry_names(stems).len() == stems.len(),
        entry_names(stems)[index] == seq!['M', 'e', 's', 's', 'a', 'g', 'e', '/'] + stems[index]
            + seq!['.', 's', 'a', 'r', 'c'],
{
    reveal_strlit("Message/");
    reveal_strlit(".sarc");
    assert("Message/"@ =~= seq!['M', 'e', 's', 's', 'a', 'g', 'e', '/']);
    assert(".sarc"@ =~= seq!['.', 's', 'a', 'r', 'c']);
    assert(entry_names(stems)[index] =~= "Message/"@ + stems[index] + ".sarc"@);
}

/// What a backup holds are the names and kinds of its entries, each in its
/// place.
pub proof fn lists_hold_their_entries(backup: Seq<BackupEntry>)
    ensures
        backup_list(backup).len() == backup.len(),
        forall|i: int|
            0 <= i < backup.len() ==> (#[trigger] backup_list(backup)[i]).0 == backup[i].name@
                && backup_list(backup)[i].1 == backup[i].is_dir,
{
}

} // verus!
