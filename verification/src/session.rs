//! The course of a session: what is asked, and what is done with the answers.
//!
//! A session is a sequence of steps. The caller carries out each step and
//! reports what came of it; [`next`] says which step follows.
use crate::names;
use crate::text;
use vstd::prelude::*;
use vstd::string::*;

verus! {

/// The console whose mods are processed.
#[derive(Clone, Copy, Debug, PartialEq, Eq, Structural)]
pub enum Platform {
    WiiU,
    Switch,
}

/// Why a session ends without a result.
#[derive(Clone, Copy, Debug, PartialEq, Eq, Structural)]
pub enum Problem {
    /// There is no directory with mods for the platform.
    NoDirectory,
    /// There are no mods with messages.
    NoMods,
    /// The answer does not name one of the mods.
    InvalidSelection,
    /// The mod turns out to have no message files.
    NoMessageFiles,
}

/// A step of a session.
#[derive(Clone, Copy, Debug, PartialEq, Eq, Structural)]
pub enum Step {
    /// Ask which platform it is about.
    AskPlatform,
    /// Look for mods in the directory of the platform.
    FindMods { platform: Platform },
    /// Offer the mods, and ask for one.
    AskMod { platform: Platform, count: usize },
    /// Look what earlier sessions have left of the mod at a place in the list.
    CheckOutput { platform: Platform, index: usize },
    /// Ask whether to rebuild the mod from the JSON files or to extract it
    /// again.
    AskAction { platform: Platform, index: usize },
    /// Rebuild the mod. The session is over then.
    Rebuild { platform: Platform, index: usize },
    /// Unpack the mod, and look for message files in it.
    Unpack { platform: Platform, index: usize },
    /// Convert the message files.
    Convert { platform: Platform, index: usize },
    /// Save a backup of the mod. The session is over then.
    SaveBackup { platform: Platform, index: usize },
    /// The session is over, with a result.
    Finished,
    /// The session was called off.
    Cancelled,
    /// The session is over, without a result.
    Failed(Problem),
}

/// What came of a step.
pub enum Event {
    /// The answer to a question, without the whitespace around it.
    Answer(String),
    /// The mods that were found: their number, `None` where there is no
    /// directory to look in.
    Mods(Option<usize>),
    /// What earlier sessions have left: whether there is a backup, and
    /// whether there is a JSON file.
    Output { backup: bool, json: bool },
    /// The number of message files that were found.
    MessageFiles(usize),
    /// The step was carried out.
    Completed,
}

/// The directory name of a platform.
pub open spec fn directory_of(platform: Platform) -> Seq<char> {
    match platform {
        Platform::WiiU => "wiiu"@,
        Platform::Switch => "nx"@,
    }
}

/// The mod that an answer selects out of `count` mods, counted from 0. Mods
/// are offered by their numbers from 1 on.
pub open spec fn selection(answer: Seq<char>, count: nat) -> Option<nat> {
    match text::number_in(answer, usize::MAX as nat) {
        Some(n) => if 1 <= n <= count {
            Some((n - 1) as nat)
        } else {
            None
        },
        None => None,
    }
}

/// The step that follows an answer.
pub open spec fn step_after_answer(step: Step, answer: Seq<char>) -> Step {
    match step {
        Step::AskPlatform => Step::FindMods {
            platform: if answer == "2"@ {
                Platform::Switch
            } else {
                Platform::WiiU
            },
        },
        Step::AskMod { platform, count } => if answer.len() == 0 {
            Step::Cancelled
        } else {
            match selection(answer, count as nat) {
                Some(index) => Step::CheckOutput { platform, index: index as usize },
                None => Step::Failed(Problem::InvalidSelection),
            }
        },
        Step::AskAction { platform, index } => if answer == "1"@ {
            Step::Rebuild { platform, index }
        } else {
            Step::Unpack { platform, index }
        },
        _ => step,
    }
}

/// The step that follows, given what came of a step. A report that does not
/// belong to the step leaves it as it is.
pub open spec fn following(step: Step, event: Event) -> Step {
    match event {
        Event::Answer(answer) => step_after_answer(step, answer@),
        Event::Mods(count) => match (step, count) {
            (Step::FindMods { platform }, None) => Step::Failed(Problem::NoDirectory),
            (Step::FindMods { platform }, Some(count)) => if count == 0 {
                Step::Failed(Problem::NoMods)
            } else {
                Step::AskMod { platform, count }
            },
            _ => step,
        },
        Event::Output { backup, json } => match step {
            Step::CheckOutput { platform, index } => if backup && json {
                Step::AskAction { platform, index }
            } else {
                Step::Unpack { platform, index }
            },
            _ => step,
        },
        Event::MessageFiles(count) => match step {
            Step::Unpack { platform, index } => if count == 0 {
                Step::Failed(Problem::NoMessageFiles)
            } else {
                Step::Convert { platform, index }
            },
            _ => step,
        },
        Event::Completed => match step {
            Step::Convert { platform, index } => Step::SaveBackup { platform, index },
            Step::SaveBackup { platform, index } => Step::Finished,
            Step::Rebuild { platform, index } => Step::Finished,
            _ => step,
        },
    }
}

/// Whether a report belongs to a step.
pub open spec fn belongs(step: Step, event: Event) -> bool {
    match step {
        Step::AskPlatform | Step::AskMod { .. } | Step::AskAction { .. } => event is Answer,
        Step::FindMods { .. } => event is Mods,
        Step::CheckOutput { .. } => event is Output,
        Step::Unpack { .. } => event is MessageFiles,
        Step::Convert { .. } | Step::SaveBackup { .. } | Step::Rebuild { .. } => event is Completed,
        Step::Finished | Step::Cancelled | Step::Failed(_) => false,
    }
}

/// Whether a session is over.
pub open spec fn is_over(step: Step) -> bool {
    step is Finished || step is Cancelled || step is Failed
}

/// How many steps may still follow.
pub open spec fn steps_left(step: Step) -> nat {
    match step {
        Step::AskPlatform => 8,
        Step::FindMods { .. } => 7,
        Step::AskMod { .. } => 6,
        Step::CheckOutput { .. } => 5,
        Step::AskAction { .. } => 4,
        Step::Unpack { .. } => 3,
        Step::Convert { .. } => 2,
        Step::SaveBackup { .. } | Step::Rebuild { .. } => 1,
        Step::Finished | Step::Cancelled | Step::Failed(_) => 0,
    }
}

/// The mod that a step is about, as its place in the list.
pub open spec fn chosen(step: Step) -> Option<usize> {
    match step {
        Step::CheckOutput { index, .. } => Some(index),
        Step::AskAction { index, .. } => Some(index),
        Step::Rebuild { index, .. } => Some(index),
        Step::Unpack { index, .. } => Some(index),
        Step::Convert { index, .. } => Some(index),
        Step::SaveBackup { index, .. } => Some(index),
        _ => None,
    }
}

/// The directory name of a platform, in the data directory and in the output.
pub fn platform_dir(platform: Platform) -> (r: String)
    ensures
        r@ == directory_of(platform),
{
    match platform {
        Platform::WiiU => "wiiu".to_owned(),
        Platform::Switch => "nx".to_owned(),
    }
}

/// The mod that an answer selects; see [`selection`].
pub fn select(answer: &str, count: usize) -> (r: Option<usize>)
    ensures
        match r {
            Some(index) => selection(answer@, count as nat) == Some(index as nat) && index < count,
            None => selection(answer@, count as nat) is None,
        },
{
    match text::parse_number(answer) {
        Some(n) => if n >= 1 && n <= count {
            Some(n - 1)
        } else {
            None
        },
        None => None,
    }
}

fn after_answer(step: Step, answer: &str) -> (r: Step)
    ensures
        r == step_after_answer(step, answer@),
{
    match step {
        Step::AskPlatform => if names::same_text(answer, "2") {
            Step::FindMods { platform: Platform::Switch }
        } else {
            Step::FindMods { platform: Platform::WiiU }
        },
        Step::AskMod { platform, count } => if answer.unicode_len() == 0 {
            Step::Cancelled
        } else {
            match select(answer, count) {
                Some(index) => Step::CheckOutput { platform, index },
                None => Step::Failed(Problem::InvalidSelection),
            }
        },
        Step::AskAction { platform, index } => if names::same_text(answer, "1") {
            Step::Rebuild { platform, index }
        } else {
            Step::Unpack { platform, index }
        },
        _ => step,
    }
}

/// The step that follows, given what came of a step; see [`following`].
pub fn next(step: Step, event: Event) -> (r: Step)
    ensures
        r == following(step, event),
{
    match event {
        Event::Answer(answer) => after_answer(step, answer.as_str()),
        Event::Mods(count) => match (step, count) {
            (Step::FindMods { platform: _ }, None) => Step::Failed(Problem::NoDirectory),
            (Step::FindMods { platform }, Some(count)) => if count == 0 {
                Step::Failed(Problem::NoMods)
            } else {
                Step::AskMod { platform, count }
            },
            _ => step,
        },
        Event::Output { backup, json } => match step {
            Step::CheckOutput { platform, index } => if backup && json {
                Step::AskAction { platform, index }
            } else {
                Step::Unpack { platform, index }
            },
            _ => step,
        },
        Event::MessageFiles(count) => match step {
            Step::Unpack { platform, index } => if count == 0 {
                Step::Failed(Problem::NoMessageFiles)
            } else {
                Step::Convert { platform, index }
            },
            _ => step,
        },
        Event::Completed => match step {
            Step::Convert { platform, index } => Step::SaveBackup { platform, index },
            Step::SaveBackup { .. } => Step::Finished,
            Step::Rebuild { .. } => Step::Finished,
            _ => step,
        },
    }
}

/// A session comes to an end: each report that belongs to a step brings it
/// nearer, and a session that is over stays as it is.
pub proof fn sessions_end(step: Step, event: Event)
    ensures
        belongs(step, event) ==> steps_left(following(step, event)) < steps_left(step),
        is_over(step) ==> following(step, event) == step,
        steps_left(step) == 0 <==> is_over(step),
        steps_left(Step::AskPlatform) == 8,
{
}

/// A mod is rebuilt only where there is something to rebuild it from, and
/// only on demand: the step before is the question, answered with `1`, and
/// the question is put only where a backup and a JSON file exist.
pub proof fn rebuilding_needs_output(step: Step, event: Event)
    requires
        following(step, event) != step,
    ensures
        following(step, event) is Rebuild <==> step is AskAction && (event matches Event::Answer(
            answer,
        ) && answer@ == "1"@),
        following(step, event) is AskAction ==> step is CheckOutput && (
        event matches Event::Output { backup, json } && backup && json),
{
}

/// The selected mod is one of the list, and it stays selected: a mod is
/// chosen only by the answer to the question for one, and every later step is
/// about the same mod.
pub proof fn selected_mod_stays(step: Step, event: Event)
    ensures
        chosen(following(step, event)) matches Some(index) ==> match chosen(step) {
            Some(before) => index == before,
            None => step matches Step::AskMod { platform, count } && index < count,
        },
{
    if let Event::Answer(answer) = event {
        if let Step::AskMod { platform, count } = step {
            if let Some(n) = selection(answer@, count as nat) {
                assert(n as usize == n);
            }
        }
    }
}

/// Each mod can be selected: the number that it is offered by, from 1 on,
/// selects it.
pub proof fn offered_number_selects(index: nat, count: nat)
    requires
        index < count <= usize::MAX,
    ensures
        selection(text::decimal(index + 1), count) == Some(index),
{
    text::decimal_reads_back(index + 1);
    let s = text::decimal(index + 1);
    assert('0' <= s[0] <= '9');
    assert(text::without_plus(s) == s);
}

/// The platform that a step is about.
pub open spec fn platform_of(step: Step) -> Option<Platform> {
    match step {
        Step::FindMods { platform } => Some(platform),
        Step::AskMod { platform, .. } => Some(platform),
        Step::CheckOutput { platform, .. } => Some(platform),
        Step::AskAction { platform, .. } => Some(platform),
        Step::Rebuild { platform, .. } => Some(platform),
        Step::Unpack { platform, .. } => Some(platform),
        Step::Convert { platform, .. } => Some(platform),
        Step::SaveBackup { platform, .. } => Some(platform),
        _ => None,
    }
}

/// The answer to the question for the platform decides about it: the single
/// character `2` means the Switch, every other answer, `1` and none among
/// them, the Wii U. Mods are looked for next.
pub proof fn answer_decides_platform(answer: String)
    ensures
        following(Step::AskPlatform, Event::Answer(answer)) is FindMods,
        platform_of(following(Step::AskPlatform, Event::Answer(answer))) == Some(
            if answer@.len() == 1 && answer@[0] == '2' {
                Platform::Switch
            } else {
                Platform::WiiU
            },
        ),
{
    reveal_strlit("2");
    assert(answer@.len() == 1 && answer@[0] == '2' ==> answer@ =~= "2"@);
}

/// A session stays with its platform: each step that follows one about a
/// platform is about the same, unless the session is over. No step but the
/// first question leads to a platform.
pub proof fn platform_stays(step: Step, event: Event)
    ensures
        match platform_of(step) {
            Some(platform) => platform_of(following(step, event)) == Some(platform) || is_over(
                following(step, event),
            ),
            None => platform_of(following(step, event)) is Some ==> step is AskPlatform,
        },
{
}

/// An answer selects the mod whose number it is, counted from 1: digits, after
/// an optional plus sign, with a value from 1 to the number of mods. Every
/// other answer selects none.
pub proof fn answers_select_by_number(answer: Seq<char>, count: nat)
    requires
        count <= usize::MAX,
    ensures
        forall|index: nat|
            (#[trigger] selection(answer, count) == Some(index)) <==> index < count && exists|
                digits: Seq<char>,
            |
                {
                    &&& answer == digits || answer == seq!['+'] + digits
                    &&& digits.len() > 0
                    &&& forall|i: int|
                        0 <= i < digits.len() ==> 48 <= (#[trigger] digits[i]) as int <= 57
                    &&& #[trigger] text::digits_value(digits) == index + 1
                },
{
    text::numbers_are_digits(answer, usize::MAX as nat);
    assert forall|index: nat|
        (#[trigger] selection(answer, count) == Some(index)) <==> index < count && exists|
            digits: Seq<char>,
        |
            {
                &&& answer == digits || answer == seq!['+'] + digits
                &&& digits.len() > 0
                &&& forall|i: int|
                    0 <= i < digits.len() ==> 48 <= (#[trigger] digits[i]) as int <= 57
                &&& #[trigger] text::digits_value(digits) == index + 1
            } by {
        let n: nat = index + 1;
        assert((text::number_in(answer, usize::MAX as nat) == Some(n)) <==> n <= usize::MAX
            && exists|digits: Seq<char>|
            {
                &&& answer == digits || answer == seq!['+'] + digits
                &&& digits.len() > 0
                &&& forall|i: int|
                    0 <= i < digits.len() ==> 48 <= (#[trigger] digits[i]) as int <= 57
                &&& #[trigger] text::digits_value(digits) == n
            });
    }
}

/// The answer to the question for a mod: none calls the session off, one that
/// selects a mod leads on to that mod, and every other ends the session.
pub proof fn answer_decides_mod(platform: Platform, count: usize, answer: String)
    ensures
        ({
            let next = following(Step::AskMod { platform, count }, Event::Answer(answer));
            &&& answer@.len() == 0 ==> next == Step::Cancelled
            &&& answer@.len() > 0 && selection(answer@, count as nat) is None ==> next
                == Step::Failed(Problem::InvalidSelection)
            &&& answer@.len() > 0 && selection(answer@, count as nat) is Some ==> (
            next matches Step::CheckOutput { platform: p, index: i } && p == platform && Some(
                i as nat,
            ) == selection(answer@, count as nat))
        }),
{
}

/// The answer to the question what to do decides: the single character `1`
/// means that the mod is rebuilt, every other answer that it is unpacked again.
pub proof fn answer_decides_action(platform: Platform, index: usize, answer: String)
    ensures
        following(Step::AskAction { platform, index }, Event::Answer(answer)) == if answer@.len()
            == 1 && answer@[0] == '1' {
            Step::Rebuild { platform, index }
        } else {
            Step::Unpack { platform, index }
        },
{
    reveal_strlit("1");
    assert(answer@.len() == 1 && answer@[0] == '1' ==> answer@ =~= "1"@);
}

/// What is found decides: mods are offered exactly if the directory exists and
/// has some, all of them; the question what to do is put exactly if there are a
/// backup and a JSON file; message files are converted exactly if there are
/// any.
pub proof fn findings_decide(
    platform: Platform,
    index: usize,
    mods: Option<usize>,
    backup: bool,
    json: bool,
    files: usize,
)
    ensures
        ({
            let next = following(Step::FindMods { platform }, Event::Mods(mods));
            &&& mods is None <==> next == Step::Failed(Problem::NoDirectory)
            &&& mods == Some(0usize) <==> next == Step::Failed(Problem::NoMods)
            &&& mods is Some && mods->0 > 0 ==> next == (Step::AskMod { platform, count: mods->0 })
        }),
        ({
            let next = following(
                Step::CheckOutput { platform, index },
                Event::Output { backup, json },
            );
            &&& backup && json <==> next == Step::AskAction { platform, index }
            &&& !backup || !json <==> next == Step::Unpack { platform, index }
        }),
        ({
            let next = following(Step::Unpack { platform, index }, Event::MessageFiles(files));
            &&& files == 0 <==> next == Step::Failed(Problem::NoMessageFiles)
            &&& files > 0 <==> next == Step::Convert { platform, index }
        }),
        following(Step::Convert { platform, index }, Event::Completed) == (Step::SaveBackup {
            platform,
            index,
        }),
        following(Step::SaveBackup { platform, index }, Event::Completed) == Step::Finished,
        following(Step::Rebuild { platform, index }, Event::Completed) == Step::Finished,
{
}

/// A report that does not belong to a step leaves it as it is.
pub proof fn other_reports_change_nothing(step: Step, event: Event)
    requires
        match event {
            Event::Answer(_) => !(step is AskPlatform) && !(step is AskMod) && !(
            step is AskAction),
            Event::Mods(_) => !(step is FindMods),
            Event::Output { .. } => !(step is CheckOutput),
            Event::MessageFiles(_) => !(step is Unpack),
            Event::Completed => !(step is Convert) && !(step is SaveBackup) && !(step is Rebuild),
        },
    ensures
        following(step, event) == step,
{
}

/// The directory of the Wii U is called `wiiu`, that of the Switch `nx`.
pub proof fn directories_by_platform()
    ensures
        directory_of(Platform::WiiU) == seq!['w', 'i', 'i', 'u'],
        directory_of(Platform::Switch) == seq!['n', 'x'],
{
    reveal_strlit("wiiu");
    reveal_strlit("nx");
    assert("wiiu"@ =~= seq!['w', 'i', 'i', 'u']);
    assert("nx"@ =~= seq!['n', 'x']);
}

} // verus!
