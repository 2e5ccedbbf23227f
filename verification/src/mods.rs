//! Installed mods: where they lie, which of them have messages, and the list
//! that they are picked from.
use crate::names;
use crate::text;
use vstd::prelude::*;
use vstd::string::*;
use vstd::utf8::*;

verus! {

/// The components of the path of the data directory: the first of the given
/// directories that is set decides, `ukmm` is the last resort.
pub open spec fn data_dir(
    local: Option<Seq<char>>,
    xdg: Option<Seq<char>>,
    home: Option<Seq<char>>,
) -> Seq<Seq<char>> {
    match (local, xdg, home) {
        (Some(dir), _, _) => seq![dir, "ukmm"@],
        (None, Some(dir), _) => seq![dir, "ukmm"@],
        (None, None, Some(dir)) => seq![dir, ".local"@, "share"@, "ukmm"@],
        (None, None, None) => seq!["ukmm"@],
    }
}

/// The text of an optional string.
pub open spec fn optional_text(s: Option<String>) -> Option<Seq<char>> {
    match s {
        Some(s) => Some(s@),
        None => None,
    }
}

/// The directory that UKMM keeps its data in, as path components.
///
/// `local` is `%LOCALAPPDATA%`, `xdg` is `$XDG_DATA_HOME` and `home` is
/// `$HOME`, each if it is set.
pub fn ukmm_data_dir(local: Option<String>, xdg: Option<String>, home: Option<String>) -> (r: Vec<
    String,
>)
    ensures
        text::texts(r@) == data_dir(optional_text(local), optional_text(xdg), optional_text(home)),
{
    let mut path: Vec<String> = Vec::new();
    if let Some(dir) = local {
        path.push(dir);
    } else if let Some(dir) = xdg {
        path.push(dir);
    } else if let Some(dir) = home {
        path.push(dir);
        path.push(".local".to_owned());
        path.push("share".to_owned());
    }
    path.push("ukmm".to_owned());
    assert(text::texts(path@) =~= data_dir(
        optional_text(local),
        optional_text(xdg),
        optional_text(home),
    ));
    path
}

/// The name that a line of `meta.yml` gives, if it gives one.
pub open spec fn line_name(line: Seq<char>) -> Option<Seq<char>> {
    let visible = text::trimmed(line);
    if "name:"@.is_prefix_of(visible) && text::trimmed(visible.skip(5)).len() > 0 {
        Some(text::trimmed(visible.skip(5)))
    } else {
        None
    }
}

/// The name that the lines of `meta.yml` from `from` on give: that of the
/// first line that gives one.
pub open spec fn name_from(content: Seq<char>, from: int) -> Option<Seq<char>>
    decreases content.len() + 1 - from,
{
    if from < 0 || from > content.len() {
        None
    } else {
        let end = text::find_char(content, '\n', from);
        match line_name(content.subrange(from, end)) {
            Some(name) => Some(name),
            None => {
                proof {
                    text::lemma_find_char(content, '\n', from);
                }
                name_from(content, end + 1)
            },
        }
    }
}

/// The `name:` that a line gives.
fn name_in_line(line: &str) -> (r: Option<String>)
    ensures
        optional_text(r) == line_name(line@),
{
    let visible = text::trim_text(line);
    proof {
        reveal_strlit("name:");
    }
    if text::starts_with_ascii(visible.as_str(), "name:") {
        let len: usize = visible.as_str().unicode_len();
        let value = visible.as_str().substring_char(5, len);
        assert(value@ =~= visible@.skip(5));
        let name = text::trim_text(value);
        if name.as_str().unicode_len() > 0 {
            return Some(name);
        }
    }
    None
}

/// The name of a mod in the text of its `meta.yml`: what follows `name:` on
/// the first line where something does.
pub fn meta_name(content: &str) -> (r: Option<String>)
    ensures
        optional_text(r) == name_from(content@, 0),
{
    let chars = text::chars_of(content);
    let mut from: usize = 0;
    loop
        invariant
            from <= chars@.len(),
            chars@ == content@,
            name_from(content@, 0) == name_from(content@, from as int),
        decreases chars@.len() - from,
    {
        let end: usize = text::find(&chars, '\n', from);
        let line = content.substring_char(from, end);
        match name_in_line(line) {
            Some(name) => {
                return Some(name);
            },
            None => {},
        }
        if end >= chars.len() {
            assert(name_from(content@, end + 1) is None);
            return None;
        }
        from = end + 1;
    }
}

/// What was found under a name in the mods directory.
pub enum Contents {
    /// A ZIP archive: the names of its entries, and the text of its
    /// `meta.yml`.
    Archive { names: Vec<String>, meta: Option<String> },
    /// A folder: the names of the files in it, at any depth, whether it has a
    /// `meta.yml`, and the text of that.
    Folder { names: Vec<String>, has_meta: bool, meta: Option<String> },
    /// Anything else.
    Other,
}

/// Something in the mods directory.
pub struct Found {
    /// The stem of its file name, if that is text.
    pub stem: Option<String>,
    /// The extension of its file name, if it has one and that is text.
    pub extension: Option<String>,
    /// What it is.
    pub contents: Contents,
}

/// A mod in the list that is offered.
pub struct ModEntry {
    /// The name that it is listed by.
    pub display_name: String,
    /// Its place among what was found.
    pub index: usize,
    /// Whether it is a folder.
    pub is_dir: bool,
}

/// A listed mod: its name, its place among what was found, and whether it is
/// a folder.
pub type ModModel = (Seq<char>, int, bool);

impl ModEntry {
    /// Name, place and whether it is a folder.
    pub open spec fn view(&self) -> ModModel {
        (self.display_name@, self.index as int, self.is_dir)
    }
}

/// What a list of mods holds.
pub open spec fn mod_list(list: Seq<ModEntry>) -> Seq<ModModel> {
    list.map_values(|m: ModEntry| m@)
}

/// Whether one of the entries of an archive is a message file.
pub open spec fn any_message_entry(names: Seq<Seq<char>>) -> bool {
    exists|i: int|
        0 <= i < names.len() && names::is_message_name(text::last_component(#[trigger] names[i]))
}

/// Whether one of the files of a folder is a message file.
pub open spec fn any_message_file(names: Seq<Seq<char>>) -> bool {
    exists|i: int| 0 <= i < names.len() && names::is_message_name(#[trigger] names[i])
}

/// Whether what was found is a mod with messages: a ZIP archive with a
/// message file in it, or a folder with a `meta.yml` and a message file.
pub open spec fn is_mod(found: Found) -> bool {
    match found.contents {
        Contents::Archive { names, meta } => optional_text(found.extension) == Some("zip"@)
            && any_message_entry(text::texts(names@)),
        Contents::Folder { names, has_meta, meta } => has_meta && any_message_file(
            text::texts(names@),
        ),
        Contents::Other => false,
    }
}

/// The text of the `meta.yml` of what was found.
pub open spec fn meta_text(found: Found) -> Option<Seq<char>> {
    match found.contents {
        Contents::Archive { names, meta } => optional_text(meta),
        Contents::Folder { names, has_meta, meta } => optional_text(meta),
        Contents::Other => None,
    }
}

/// The name that the text of a `meta.yml` gives; `None` where there is no text
/// or no name in it.
pub open spec fn stated(meta: Option<Seq<char>>) -> Option<Seq<char>> {
    match meta {
        Some(content) => name_from(content, 0),
        None => None,
    }
}

/// The stem of what was found, `unknown` where it is not text.
pub open spec fn stem_name(found: Found) -> Seq<char> {
    match found.stem {
        Some(stem) => stem@,
        None => "unknown"@,
    }
}

/// The name that a mod is listed by: that in its `meta.yml`, or else its
/// stem.
pub open spec fn display_name(found: Found) -> Seq<char> {
    match stated(meta_text(found)) {
        Some(name) => name,
        None => stem_name(found),
    }
}

/// The mod at a place among what was found, if there is one.
pub open spec fn mod_at(found: Seq<Found>, index: int) -> Option<ModModel> {
    if 0 <= index < found.len() && is_mod(found[index]) {
        Some((display_name(found[index]), index, found[index].contents is Folder))
    } else {
        None
    }
}

/// A text beyond ASCII in lower case, as `str::to_lowercase` has it.
pub uninterp spec fn unicode_lowercase(s: Seq<char>) -> Seq<char>;

/// An ASCII character in lower case.
pub open spec fn ascii_lower(c: char) -> char {
    if 'A' <= c <= 'Z' {
        (c as nat + 32) as char
    } else {
        c
    }
}

/// A text in lower case.
pub open spec fn lowercase(s: Seq<char>) -> Seq<char> {
    if is_ascii_chars(s) {
        s.map_values(|c: char| ascii_lower(c))
    } else {
        unicode_lowercase(s)
    }
}

/// Whether a mod is listed before another: by its name in lower case, then
/// archives before folders, then in the order in which they were found.
pub open spec fn listed_before(a: ModModel, b: ModModel) -> bool {
    let x = lowercase(a.0);
    let y = lowercase(b.0);
    text::text_less(x, y) || (x == y && if a.2 == b.2 {
        a.1 < b.1
    } else {
        b.2
    })
}

/// Whether a list is in order, each mod once.
pub open spec fn in_order(list: Seq<ModModel>) -> bool {
    forall|i: int, j: int|
        0 <= i < j < list.len() ==> listed_before(#[trigger] list[i], #[trigger] list[j])
}

/// Whether a list is that of the mods among the first `count` things found.
pub open spec fn lists(list: Seq<ModModel>, found: Seq<Found>, count: int) -> bool {
    &&& in_order(list)
    &&& forall|m: ModModel| #[trigger]
        list.contains(m) <==> m.1 < count && mod_at(found, m.1) == Some(m)
}

/// A text in lower case.
///
/// Calls `str::to_lowercase`. Believed of it: of an ASCII text the result is
/// the text with each of the letters `A` to `Z` in lower case, and of another
/// text it depends on the text alone.
#[verifier::external_body]
fn to_lower(s: &str) -> (r: String)
    ensures
        r@ == if is_ascii_chars(s@) {
            s@.map_values(|c: char| ascii_lower(c))
        } else {
            unicode_lowercase(s@)
        },
{
    s.to_lowercase()
}

/// Tells whether a ZIP archive with these entries has a message file in it.
pub fn peek_zip_has_msg(names: &Vec<String>) -> (r: bool)
    ensures
        r == any_message_entry(text::texts(names@)),
{
    let ghost all = text::texts(names@);
    let mut i: usize = 0;
    while i < names.len()
        invariant
            i <= names@.len(),
            all == text::texts(names@),
            forall|j: int|
                0 <= j < i ==> !names::is_message_name(text::last_component(#[trigger] all[j])),
        decreases names@.len() - i,
    {
        if names::is_msg_entry(names[i].as_str()) {
            assert(names::is_message_name(text::last_component(all[i as int])));
            return true;
        }
        i = i + 1;
    }
    false
}

fn has_message_file(names: &Vec<String>) -> (r: bool)
    ensures
        r == any_message_file(text::texts(names@)),
{
    let ghost all = text::texts(names@);
    let mut i: usize = 0;
    while i < names.len()
        invariant
            i <= names@.len(),
            all == text::texts(names@),
            forall|j: int| 0 <= j < i ==> !names::is_message_name(#[trigger] all[j]),
        decreases names@.len() - i,
    {
        if names::is_msg_name(names[i].as_str()) {
            assert(names::is_message_name(all[i as int]));
            return true;
        }
        i = i + 1;
    }
    false
}

fn check_mod(found: &Found) -> (r: bool)
    ensures
        r == is_mod(*found),
{
    match &found.contents {
        Contents::Archive { names, meta: _ } => {
            let zip: bool = match &found.extension {
                Some(extension) => names::same_text(extension.as_str(), "zip"),
                None => false,
            };
            zip && peek_zip_has_msg(names)
        },
        Contents::Folder { names, has_meta, meta: _ } => *has_meta && has_message_file(names),
        Contents::Other => false,
    }
}

fn stated_name(meta: &Option<String>) -> (r: Option<String>)
    ensures
        optional_text(r) == stated(optional_text(*meta)),
{
    match meta {
        Some(content) => meta_name(content.as_str()),
        None => None,
    }
}

fn name_of(found: &Found) -> (r: String)
    ensures
        r@ == display_name(*found),
{
    let stated = match &found.contents {
        Contents::Archive { names: _, meta } => stated_name(meta),
        Contents::Folder { names: _, has_meta: _, meta } => stated_name(meta),
        Contents::Other => None,
    };
    match stated {
        Some(name) => name,
        None => names::stem_or_unknown(found.stem.clone()),
    }
}

proof fn lemma_order(a: ModModel, b: ModModel)
    ensures
        !(listed_before(a, b) && listed_before(b, a)),
        a.1 != b.1 ==> listed_before(a, b) || listed_before(b, a),
{
    text::lemma_text_order(lowercase(a.0), lowercase(b.0));
}

proof fn lemma_transitive(a: ModModel, b: ModModel, c: ModModel)
    requires
        listed_before(a, b),
        listed_before(b, c),
    ensures
        listed_before(a, c),
{
    let x = lowercase(a.0);
    let y = lowercase(b.0);
    let z = lowercase(c.0);
    if text::text_less(x, y) && text::text_less(y, z) {
        text::lemma_text_transitive(x, y, z);
    }
}

/// Puts a mod in its place.
fn place(list: &mut Vec<ModEntry>, keys: &mut Vec<String>, entry: ModEntry)
    requires
        in_order(mod_list(old(list)@)),
        old(keys)@.len() == old(list)@.len(),
        forall|i: int|
            0 <= i < old(list)@.len() ==> (#[trigger] old(keys)@[i])@ == lowercase(
                old(list)@[i]@.0,
            ),
        forall|i: int| 0 <= i < old(list)@.len() ==> (#[trigger] old(list)@[i])@.1 != entry@.1,
    ensures
        in_order(mod_list(final(list)@)),
        final(keys)@.len() == final(list)@.len(),
        forall|i: int|
            0 <= i < final(list)@.len() ==> (#[trigger] final(keys)@[i])@ == lowercase(
                final(list)@[i]@.0,
            ),
        forall|m: ModModel| #[trigger]
            mod_list(final(list)@).contains(m) <==> m == entry@ || mod_list(
                old(list)@,
            ).contains(m),
{
    let ghost before = mod_list(list@);
    let ghost added = entry@;
    let key = to_lower(entry.display_name.as_str());
    let mut at: usize = 0;
    while at < list.len() && precedes(&keys[at], &list[at], &key, &entry)
        invariant
            at <= list@.len(),
            list@ == old(list)@,
            keys@ == old(keys)@,
            keys@.len() == list@.len(),
            before == mod_list(list@),
            added == entry@,
            key@ == lowercase(added.0),
            forall|i: int|
                0 <= i < list@.len() ==> (#[trigger] keys@[i])@ == lowercase(list@[i]@.0),
            forall|i: int| 0 <= i < at ==> listed_before(#[trigger] before[i], added),
        decreases list@.len() - at,
    {
        at = at + 1;
    }
    assert forall|i: int| at <= i < before.len() implies listed_before(
        added,
        #[trigger] before[i],
    ) by {
        assert(before[at as int] == list@[at as int]@);
        lemma_order(before[at as int], added);
        if i > at {
            assert(listed_before(before[at as int], before[i]));
            lemma_transitive(added, before[at as int], before[i]);
        }
    }
    keys.insert(at, key);
    list.insert(at, entry);
    let ghost after = mod_list(list@);
    assert(after =~= before.insert(at as int, added));
    proof {
        assert forall|i: int, j: int| 0 <= i < j < after.len() implies listed_before(
            #[trigger] after[i],
            #[trigger] after[j],
        ) by {
            let x = if i < at { i } else { i - 1 };
            let y = if j < at { j } else { j - 1 };
            if i == at {
                assert(listed_before(added, before[y]));
            } else if j == at {
                assert(listed_before(before[x], added));
            } else {
                assert(listed_before(before[x], before[y]));
            }
        }
        assert forall|m: ModModel| #[trigger]
            after.contains(m) <==> m == added || before.contains(m) by {
            if after.contains(m) {
                let i = choose|i: int| 0 <= i < after.len() && after[i] == m;
                if i < at {
                    assert(before[i] == m);
                } else if i > at {
                    assert(before[i - 1] == m);
                }
            }
            if m == added {
                assert(after[at as int] == m);
            }
            if before.contains(m) {
                let i = choose|i: int| 0 <= i < before.len() && before[i] == m;
                if i < at {
                    assert(after[i] == m);
                } else {
                    assert(after[i + 1] == m);
                }
            }
        }
        assert forall|i: int| 0 <= i < list@.len() implies (#[trigger] keys@[i])@ == lowercase(
            list@[i]@.0,
        ) by {
            if i < at {
                assert(keys@[i] == old(keys)@[i]);
            } else if i > at {
                assert(keys@[i] == old(keys)@[i - 1]);
            }
        }
    }
}

fn precedes(a_key: &String, a: &ModEntry, b_key: &String, b: &ModEntry) -> (r: bool)
    requires
        a_key@ == lowercase(a@.0),
        b_key@ == lowercase(b@.0),
    ensures
        r == listed_before(a@, b@),
{
    text::is_less(a_key.as_str(), b_key.as_str()) || (*a_key == *b_key && if a.is_dir == b.is_dir {
        a.index < b.index
    } else {
        b.is_dir
    })
}

/// The list of the mods with messages among what was found.
///
/// They are ordered by their names without regard to case; of those with the
/// same name, archives come before folders.
pub fn list_mods(found: &Vec<Found>) -> (r: Vec<ModEntry>)
    ensures
        lists(mod_list(r@), found@, found@.len() as int),
{
    let mut list: Vec<ModEntry> = Vec::new();
    let mut keys: Vec<String> = Vec::new();
    let mut i: usize = 0;
    while i < found.len()
        invariant
            i <= found@.len(),
            lists(mod_list(list@), found@, i as int),
            keys@.len() == list@.len(),
            forall|j: int|
                0 <= j < list@.len() ==> (#[trigger] keys@[j])@ == lowercase(list@[j]@.0),
        decreases found@.len() - i,
    {
        let ghost before = mod_list(list@);
        if check_mod(&found[i]) {
            let is_dir: bool = match found[i].contents {
                Contents::Folder { .. } => true,
                _ => false,
            };
            let entry = ModEntry { display_name: name_of(&found[i]), index: i, is_dir };
            assert(mod_at(found@, i as int) == Some(entry@));
            assert forall|j: int| 0 <= j < list@.len() implies (#[trigger] list@[j])@.1
                != entry@.1 by {
                assert(before[j] == list@[j]@);
                assert(before.contains(before[j]));
            }
            place(&mut list, &mut keys, entry);
        }
        i = i + 1;
        assert forall|m: ModModel| #[trigger]
            mod_list(list@).contains(m) <==> m.1 < i && mod_at(found@, m.1) == Some(m) by {
            assert(before.contains(m) <==> m.1 < i - 1 && mod_at(found@, m.1) == Some(m));
        }
    }
    list
}

/// The list of mods is determined by what was found: any two lists that are
/// in order and hold the same mods are the same.
pub proof fn listings_agree(a: Seq<ModModel>, b: Seq<ModModel>)
    requires
        in_order(a),
        in_order(b),
        forall|m: ModModel|
            #![trigger a.contains(m)]
            #![trigger b.contains(m)]
            a.contains(m) <==> b.contains(m),
    ensures
        a == b,
    decreases a.len(),
{
    if a.len() == 0 {
        if b.len() > 0 {
            assert(b.contains(b[0]));
        }
        assert(a =~= b);
    } else {
        assert(a.contains(a.last()));
        assert(b.contains(a.last()));
        let k = choose|k: int| 0 <= k < b.len() && b[k] == a.last();
        assert(b.contains(b.last()));
        assert(a.contains(b.last()));
        let m = choose|m: int| 0 <= m < a.len() && a[m] == b.last();
        if k < b.len() - 1 {
            assert(listed_before(b[k], b[b.len() - 1]));
            lemma_order(a.last(), b.last());
            if m < a.len() - 1 {
                assert(listed_before(a[m], a[a.len() - 1]));
            }
        }
        assert(a.last() == b.last());
        let x = a.drop_last();
        let y = b.drop_last();
        assert forall|s: ModModel|
            #![trigger x.contains(s)]
            #![trigger y.contains(s)]
            x.contains(s) <==> y.contains(s) by {
            if x.contains(s) {
                let i = choose|i: int| 0 <= i < x.len() && x[i] == s;
                assert(a[i] == s);
                assert(b.contains(s));
                let j = choose|j: int| 0 <= j < b.len() && b[j] == s;
                assert(listed_before(a[i], a[a.len() - 1]));
                lemma_order(s, a.last());
                assert(y[j] == s);
            }
            if y.contains(s) {
                let i = choose|i: int| 0 <= i < y.len() && y[i] == s;
                assert(b[i] == s);
                assert(a.contains(s));
                let j = choose|j: int| 0 <= j < a.len() && a[j] == s;
                assert(listed_before(b[i], b[b.len() - 1]));
                lemma_order(s, b.last());
                assert(x[j] == s);
            }
        }
        listings_agree(x, y);
        assert(a =~= x.push(a.last()));
        assert(b =~= y.push(b.last()));
    }
}

/// The `meta.yml` of an archive and that of a folder are read alike: the same
/// text gives the same name, and without the file, or without a name in it, a
/// mod goes by its stem.
pub proof fn meta_is_read_alike(archive: Found, folder: Found)
    requires
        archive.contents is Archive,
        folder.contents is Folder,
        meta_text(archive) == meta_text(folder),
    ensures
        match stated(meta_text(archive)) {
            Some(name) => display_name(archive) == name && display_name(folder) == name,
            None => display_name(archive) == stem_name(archive) && display_name(folder)
                == stem_name(folder),
        },
        meta_text(archive) is None ==> stated(meta_text(archive)) is None,
{
}

/// The data directory lies in the first of the directories that is set, in
/// this order; in the home directory it lies two levels deeper, and where none
/// is set it has no directory above it. Its own name is the last component.
pub proof fn first_directory_decides(
    local: Option<Seq<char>>,
    xdg: Option<Seq<char>>,
    home: Option<Seq<char>>,
)
    ensures
        ({
            let dir = data_dir(local, xdg, home);
            let own = seq!['u', 'k', 'm', 'm'];
            &&& dir.last() == own
            &&& local is Some ==> dir == seq![local->0, own]
            &&& local is None && xdg is Some ==> dir == seq![xdg->0, own]
            &&& local is None && xdg is None && home is Some ==> dir == seq![
                home->0,
                seq!['.', 'l', 'o', 'c', 'a', 'l'],
                seq!['s', 'h', 'a', 'r', 'e'],
                own,
            ]
            &&& local is None && xdg is None && home is None ==> dir == seq![own]
        }),
{
    reveal_strlit("ukmm");
    reveal_strlit(".local");
    reveal_strlit("share");
    assert("ukmm"@ =~= seq!['u', 'k', 'm', 'm']);
    assert(".local"@ =~= seq!['.', 'l', 'o', 'c', 'a', 'l']);
    assert("share"@ =~= seq!['s', 'h', 'a', 'r', 'e']);
}

/// The key that a line with a name starts with.
pub open spec fn name_key() -> Seq<char> {
    seq!['n', 'a', 'm', 'e', ':']
}

/// A line gives the name that follows `name:`. Whitespace around the key and
/// around the name does not count.
pub proof fn name_follows_its_key(
    a: Seq<char>,
    b: Seq<char>,
    name: Seq<char>,
    c: Seq<char>,
)
    requires
        forall|i: int| 0 <= i < a.len() ==> text::is_whitespace(#[trigger] a[i]),
        forall|i: int| 0 <= i < b.len() ==> text::is_whitespace(#[trigger] b[i]),
        forall|i: int| 0 <= i < c.len() ==> text::is_whitespace(#[trigger] c[i]),
        name.len() > 0,
        !text::is_whitespace(name[0]),
        !text::is_whitespace(name.last()),
    ensures
        line_name(a + name_key() + b + name + c) == Some(name),
{
    reveal_strlit("name:");
    let inner = name_key() + b + name;
    assert(inner.last() == name.last());
    assert(inner[0] == 'n');
    text::trimming_takes_ends_off(a, inner, c);
    assert(a + name_key() + b + name + c =~= a + inner + c);
    assert("name:"@ =~= inner.subrange(0, 5));
    let none = Seq::<char>::empty();
    text::trimming_takes_ends_off(b, name, none);
    assert(inner.skip(5) =~= b + name + none);
}

/// A line with something else in front, or with nothing behind the key, gives
/// no name.
pub proof fn other_lines_give_no_name(a: Seq<char>, inner: Seq<char>, c: Seq<char>)
    requires
        forall|i: int| 0 <= i < a.len() ==> text::is_whitespace(#[trigger] a[i]),
        forall|i: int| 0 <= i < c.len() ==> text::is_whitespace(#[trigger] c[i]),
        inner.len() > 0 ==> !text::is_whitespace(inner[0]) && !text::is_whitespace(inner.last()),
        inner.len() <= 5 || inner.subrange(0, 5) != name_key(),
    ensures
        line_name(a + inner + c) is None,
{
    reveal_strlit("name:");
    text::trimming_takes_ends_off(a, inner, c);
    assert("name:"@ =~= name_key());
    if inner.len() == 5 {
        let none = Seq::<char>::empty();
        text::trimming_takes_ends_off(none, none, none);
        assert(inner.skip(5) =~= none + none + none);
    }
}

/// The lines of a `meta.yml` are read in turn: the first one that gives a name
/// decides.
pub proof fn lines_are_read_in_turn(line: Seq<char>, rest: Seq<char>)
    requires
        !line.contains('\n'),
    ensures
        name_from(line, 0) == line_name(line),
        name_from(line + seq!['\n'] + rest, 0) == match line_name(line) {
            Some(name) => Some(name),
            None => name_from(rest, 0),
        },
{
    let n = line.len() as int;
    text::search_finds_first(line, '\n', 0);
    if text::find_char(line, '\n', 0) < n {
        assert(line.contains('\n'));
    }
    assert(line.subrange(0, n) =~= line);
    assert(name_from(line, n + 1) is None);
    let s = line + seq!['\n'] + rest;
    text::search_finds_first(s, '\n', 0);
    assert(s[n] == '\n');
    if text::find_char(s, '\n', 0) < n {
        assert(line[text::find_char(s, '\n', 0)] == '\n');
        assert(line.contains('\n'));
    }
    assert(text::find_char(s, '\n', 0) == n);
    assert(s.subrange(0, n) =~= line);
    assert(s.skip(n + 1) =~= rest);
    lemma_name_from_shifted(s, n + 1, 0);
}

proof fn lemma_find_shifted(s: Seq<char>, c: char, cut: int, from: int)
    requires
        0 <= cut <= s.len(),
        0 <= from <= s.len() - cut,
    ensures
        text::find_char(s, c, cut + from) == cut + text::find_char(s.skip(cut), c, from),
    decreases s.len() - from,
{
    if cut + from < s.len() {
        assert(s.skip(cut)[from] == s[cut + from]);
        if s[cut + from] != c {
            lemma_find_shifted(s, c, cut, from + 1);
        }
    }
}

proof fn lemma_name_from_shifted(s: Seq<char>, cut: int, from: int)
    requires
        0 <= cut <= s.len(),
        0 <= from,
    ensures
        name_from(s, cut + from) == name_from(s.skip(cut), from),
    decreases s.len() + 1 - from,
{
    let t = s.skip(cut);
    if from <= t.len() {
        lemma_find_shifted(s, '\n', cut, from);
        text::lemma_find_char(t, '\n', from);
        let end = text::find_char(t, '\n', from);
        assert(s.subrange(cut + from, cut + end) =~= t.subrange(from, end));
        lemma_name_from_shifted(s, cut, end + 1);
    }
}

/// A ZIP archive is a mod exactly if its extension is `zip` and one of its
/// entries is a message file, by the part of the name after the last slash or
/// backslash; a folder exactly if it has a `meta.yml` and a message file in it.
/// Anything else is none.
pub proof fn mods_have_messages(found: Found)
    ensures
        is_mod(found) <==> match found.contents {
            Contents::Archive { names, meta } => {
                &&& found.extension matches Some(e) && e@ == seq!['z', 'i', 'p']
                &&& exists|i: int|
                    0 <= i < names@.len() && names::is_message_name(
                        text::last_component((#[trigger] names@[i])@),
                    )
            },
            Contents::Folder { names, has_meta, meta } => {
                &&& has_meta
                &&& exists|i: int|
                    0 <= i < names@.len() && names::is_message_name((#[trigger] names@[i])@)
            },
            Contents::Other => false,
        },
{
    reveal_strlit("zip");
    assert("zip"@ =~= seq!['z', 'i', 'p']);
    match found.contents {
        Contents::Archive { names, meta } => {
            let all = text::texts(names@);
            if any_message_entry(all) {
                let i = choose|i: int|
                    0 <= i < all.len() && names::is_message_name(
                        text::last_component(#[trigger] all[i]),
                    );
                assert(all[i] == names@[i]@);
            }
            if exists|i: int|
                0 <= i < names@.len() && names::is_message_name(
                    text::last_component((#[trigger] names@[i])@),
                ) {
                let i = choose|i: int|
                    0 <= i < names@.len() && names::is_message_name(
                        text::last_component((#[trigger] names@[i])@),
                    );
                assert(all[i] == names@[i]@);
            }
        },
        Contents::Folder { names, has_meta, meta } => {
            let all = text::texts(names@);
            if any_message_file(all) {
                let i = choose|i: int|
                    0 <= i < all.len() && names::is_message_name(#[trigger] all[i]);
                assert(all[i] == names@[i]@);
            }
            if exists|i: int|
                0 <= i < names@.len() && names::is_message_name((#[trigger] names@[i])@) {
                let i = choose|i: int|
                    0 <= i < names@.len() && names::is_message_name((#[trigger] names@[i])@);
                assert(all[i] == names@[i]@);
            }
        },
        Contents::Other => {},
    }
}

/// A mod goes by the name in its `meta.yml`, or else by its stem, or else as
/// `unknown`.
pub proof fn mods_go_by_their_meta(found: Found, content: String)
    requires
        match found.contents {
            Contents::Archive { names, meta } => meta == Some(content),
            Contents::Folder { names, has_meta, meta } => meta == Some(content),
            Contents::Other => false,
        },
    ensures
        match (name_from(content@, 0), found.stem) {
            (Some(name), _) => display_name(found) == name,
            (None, Some(stem)) => display_name(found) == stem@,
            (None, None) => display_name(found) == seq!['u', 'n', 'k', 'n', 'o', 'w', 'n'],
        },
{
    reveal_strlit("unknown");
    assert("unknown"@ =~= seq!['u', 'n', 'k', 'n', 'o', 'w', 'n']);
}

/// Every mod that was found is listed once, under its name, and nothing else
/// is.
pub proof fn mods_are_listed_once(list: Seq<ModModel>, found: Seq<Found>, index: int)
    requires
        lists(list, found, found.len() as int),
        0 <= index < found.len(),
    ensures
        is_mod(found[index]) <==> exists|i: int| 0 <= i < list.len() && (#[trigger] list[i]).1
            == index,
        forall|i: int|
            0 <= i < list.len() && (#[trigger] list[i]).1 == index ==> list[i].0 == display_name(
                found[index],
            ) && list[i].2 == (found[index].contents is Folder),
        forall|i: int, j: int|
            0 <= i < j < list.len() && (#[trigger] list[i]).1 == index ==> (#[trigger] list[j]).1
                != index,
        forall|i: int| 0 <= i < list.len() ==> 0 <= (#[trigger] list[i]).1 < found.len(),
{
    assert forall|i: int| 0 <= i < list.len() implies mod_at(found, (#[trigger] list[i]).1) == Some(
        list[i],
    ) && list[i].1 < found.len() by {
        assert(list.contains(list[i]));
    }
    if is_mod(found[index]) {
        let m = mod_at(found, index)->0;
        assert(list.contains(m));
        let i = choose|i: int| 0 <= i < list.len() && list[i] == m;
        assert(list[i].1 == index);
    }
    assert forall|i: int, j: int|
        0 <= i < j < list.len() && (#[trigger] list[i]).1 == index implies (#[trigger] list[j]).1
        != index by {
        if list[j].1 == index {
            assert(mod_at(found, list[i].1) == Some(list[i]));
            assert(mod_at(found, list[j].1) == Some(list[j]));
            assert(list[i] == list[j]);
            assert(listed_before(list[i], list[j]));
            lemma_order(list[i], list[j]);
        }
    }
}

/// The mods are listed by their names in lower case; of those that have the
/// same, archives come before folders, and otherwise what was found first comes
/// first.
pub proof fn mods_are_listed_by_name(list: Seq<ModModel>, found: Seq<Found>, i: int, j: int)
    requires
        lists(list, found, found.len() as int),
        0 <= i < j < list.len(),
    ensures
        text::text_less(lowercase(list[i].0), lowercase(list[j].0)) || lowercase(list[i].0)
            == lowercase(list[j].0),
        lowercase(list[i].0) == lowercase(list[j].0) && list[i].2 ==> list[j].2,
        lowercase(list[i].0) == lowercase(list[j].0) && list[i].2 == list[j].2 ==> list[i].1
            < list[j].1,
{
    assert(listed_before(list[i], list[j]));
    text::lemma_text_order(lowercase(list[i].0), lowercase(list[j].0));
}

/// An ASCII name in lower case has each of the letters `A` to `Z` replaced by
/// the one 32 places further on, and is otherwise the same.
pub proof fn lower_case_by_character(s: Seq<char>, index: int)
    requires
        is_ascii_chars(s),
        0 <= index < s.len(),
    ensures
        lowercase(s).len() == s.len(),
        lowercase(s)[index] as int == if 65 <= s[index] as int <= 90 {
            s[index] as int + 32
        } else {
            s[index] as int
        },
{
}

/// What a list of mods holds are its mods, each in its place.
pub proof fn lists_hold_their_mods(list: Seq<ModEntry>)
    ensures
        mod_list(list).len() == list.len(),
        forall|i: int|
            0 <= i < list.len() ==> (#[trigger] mod_list(list)[i]).0 == list[i].display_name@
                && mod_list(list)[i].1 == list[i].index && mod_list(list)[i].2 == list[i].is_dir,
{
}

/// A mod without a `meta.yml`, and anything else without one, goes by its stem,
/// or else as `unknown`.
pub proof fn mods_without_meta_go_by_their_stem(found: Found)
    requires
        match found.contents {
            Contents::Archive { names, meta } => meta is None,
            Contents::Folder { names, has_meta, meta } => meta is None,
            Contents::Other => true,
        },
    ensures
        match found.stem {
            Some(stem) => display_name(found) == stem@,
            None => display_name(found) == seq!['u', 'n', 'k', 'n', 'o', 'w', 'n'],
        },
{
    reveal_strlit("unknown");
    assert("unknown"@ =~= seq!['u', 'n', 'k', 'n', 'o', 'w', 'n']);
}

/// The text of an optional string is that of the string, if there is one.
pub proof fn optional_text_is_that_of_the_string(s: Option<String>)
    ensures
        optional_text(s) is Some <==> s is Some,
        s is Some ==> optional_text(s) == Some((s->0)@),
{
}

/// A name with a character beyond ASCII in it is put in lower case as
/// `str::to_lowercase` does.
pub proof fn lower_case_beyond_ascii(s: Seq<char>, index: int)
    requires
        0 <= index < s.len(),
        s[index] as int >= 128,
    ensures
        lowercase(s) == unicode_lowercase(s),
{
}

} // verus!
