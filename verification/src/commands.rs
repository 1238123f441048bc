use vstd::prelude::*;
use crate::engine::{Engine, lattice_of_engine};
use crate::lattice::{Lattice, MAX_READING_LEN};
use crate::romaji::{RomKanConverter, spec_remove_last, spec_hiragana, lemma_last_unit_start_range};
use crate::search::{Candidate, path_complete, path_cost, is_min_to};

verus! {

// The command table: the fixed set of named operations the host frontend
// may invoke on the conversion context, as a data-driven map from command
// name to command value.

#[derive(PartialEq, Eq, Structural, Clone, Copy, Debug)]
pub enum InputMode {
    Hiragana,
    Alnum,
}

#[derive(PartialEq, Eq, Structural, Clone, Copy, Debug)]
pub enum Command {
    CommitPreedit,
    EraseCharacterBeforeCursor,
    SetInputModeHiragana,
    SetInputModeAlnum,
    UpdateCandidates,
}

/// Per-session conversion state: the raw keystroke buffer, the current
/// input mode, whether a conversion is in progress, and the lattice and
/// ranked candidate paths of the last refresh.
pub struct AkazaContext {
    pub preedit: String,
    pub input_mode: InputMode,
    pub in_henkan: bool,
    pub lattice: Option<Lattice>,
    pub candidates: Vec<Candidate>,
    pub romkan: RomKanConverter,
}

impl AkazaContext {
    pub open spec fn wf(self) -> bool {
        self.preedit@.len() <= MAX_READING_LEN
    }

    pub fn new() -> (r: AkazaContext)
        ensures
            r.wf(),
            r.preedit@.len() == 0,
            r.input_mode is Hiragana,
            !r.in_henkan,
            r.candidates@.len() == 0,
            r.lattice is None,
    {
        AkazaContext {
            preedit: String::new(),
            input_mode: InputMode::Hiragana,
            in_henkan: false,
            lattice: None,
            candidates: Vec::new(),
            romkan: RomKanConverter::new(),
        }
    }
}

/// The name-to-command dispatch table the frontend drives.
pub fn ibus_akaza_commands_map() -> (r: Vec<(String, Command)>)
    ensures
        r@.len() == 5,
        r@[0].0@ == "commit_preedit"@ && r@[0].1 is CommitPreedit,
        r@[1].0@ == "erase_character_before_cursor"@ && r@[1].1 is EraseCharacterBeforeCursor,
        r@[2].0@ == "set_input_mode_hiragana"@ && r@[2].1 is SetInputModeHiragana,
        r@[3].0@ == "set_input_mode_alnum"@ && r@[3].1 is SetInputModeAlnum,
        r@[4].0@ == "update_candidates"@ && r@[4].1 is UpdateCandidates,
{
    let mut r: Vec<(String, Command)> = Vec::new();
    r.push((String::from_str("commit_preedit"), Command::CommitPreedit));
    r.push((String::from_str("erase_character_before_cursor"), Command::EraseCharacterBeforeCursor));
    r.push((String::from_str("set_input_mode_hiragana"), Command::SetInputModeHiragana));
    r.push((String::from_str("set_input_mode_alnum"), Command::SetInputModeAlnum));
    r.push((String::from_str("update_candidates"), Command::UpdateCandidates));
    r
}

/// Look a command up by its name in the dispatch table.
pub fn lookup_command(map: &Vec<(String, Command)>, name: &str) -> (r: Option<Command>)
    ensures
        match r {
            Some(c) => exists|k: int| 0 <= k < map@.len() && (#[trigger] map@[k]).0@ == name@
                && map@[k].1 == c,
            None => forall|k: int| 0 <= k < map@.len() ==> (#[trigger] map@[k]).0@ != name@,
        },
{
    let n = name.unicode_len();
    let mut k: usize = 0;
    while k < map.len()
        invariant
            k <= map@.len(),
            n == name@.len(),
            forall|k2: int| 0 <= k2 < k ==> (#[trigger] map@[k2]).0@ != name@,
        decreases map@.len() - k,
    {
        if str_eq_len(map[k].0.as_str(), name, n) {
            return Some(map[k].1);
        }
        k = k + 1;
    }
    None
}

/// Character-for-character equality of two string slices, the second of
/// known length.
fn str_eq_len(a: &str, b: &str, blen: usize) -> (r: bool)
    requires
        blen == b@.len(),
    ensures
        r == (a@ == b@),
{
    let alen = a.unicode_len();
    if alen != blen {
        proof {
            assert(a@.len() != b@.len());
        }
        return false;
    }
    let mut i: usize = 0;
    while i < alen
        invariant
            i <= alen,
            alen == a@.len(),
            a@.len() == b@.len(),
            forall|j: int| 0 <= j < i ==> a@[j] == b@[j],
        decreases alen - i,
    {
        if a.get_char(i) != b.get_char(i) {
            return false;
        }
        i = i + 1;
    }
    proof {
        assert(a@ =~= b@);
    }
    true
}

/// Commit outside conversion: the preedit is normalized to hiragana and
/// handed back as the commit string; the buffer and candidates clear.
pub fn commit_preedit(context: &mut AkazaContext) -> (r: String)
    requires
        old(context).wf(),
    ensures
        final(context).wf(),
        r@ == spec_hiragana(old(context).preedit@, 0),
        final(context).preedit@.len() == 0,
        !final(context).in_henkan,
        final(context).candidates@.len() == 0,
        final(context).lattice is None,
        final(context).input_mode == old(context).input_mode,
{
    let surface = context.romkan.to_hiragana(context.preedit.as_str());
    context.preedit = String::new();
    context.in_henkan = false;
    context.lattice = None;
    context.candidates = Vec::new();
    surface
}

/// Erase one input unit: leave conversion mode if one is open, otherwise
/// drop the last logical unit of the preedit — a whole syllable, or the
/// bare pending consonant.
pub fn erase_character_before_cursor(context: &mut AkazaContext)
    requires
        old(context).wf(),
    ensures
        final(context).wf(),
        final(context).input_mode == old(context).input_mode,
        old(context).in_henkan ==> final(context).preedit@ == old(context).preedit@
            && !final(context).in_henkan && final(context).candidates@.len() == 0
            && final(context).lattice is None,
        !old(context).in_henkan ==> final(context).preedit@ == spec_remove_last(
            old(context).preedit@,
        ) && final(context).in_henkan == old(context).in_henkan && final(context).candidates@
            == old(context).candidates@ && final(context).lattice == old(context).lattice,
{
    if context.in_henkan {
        context.candidates = Vec::new();
        context.lattice = None;
        context.in_henkan = false;
    } else {
        let trimmed = context.romkan.remove_last_char(context.preedit.as_str());
        proof {
            if old(context).preedit@.len() > 0 {
                lemma_last_unit_start_range(old(context).preedit@, 0);
            }
        }
        context.preedit = trimmed;
    }
}

pub fn set_input_mode_hiragana(context: &mut AkazaContext)
    requires
        old(context).wf(),
    ensures
        final(context).wf(),
        final(context).input_mode is Hiragana,
        final(context).preedit@ == old(context).preedit@,
        final(context).in_henkan == old(context).in_henkan,
        final(context).candidates@ == old(context).candidates@,
        final(context).lattice == old(context).lattice,
{
    context.input_mode = InputMode::Hiragana;
}

pub fn set_input_mode_alnum(context: &mut AkazaContext)
    requires
        old(context).wf(),
    ensures
        final(context).wf(),
        final(context).input_mode is Alnum,
        final(context).preedit@ == old(context).preedit@,
        final(context).in_henkan == old(context).in_henkan,
        final(context).candidates@ == old(context).candidates@,
        final(context).lattice == old(context).lattice,
{
    context.input_mode = InputMode::Alnum;
}

/// How many candidates a refresh asks the engine for.
pub const CANDIDATE_WINDOW: usize = 10;

/// Refresh the candidate list: normalize the preedit to its reading, run
/// the search, and keep the lattice with the ranked complete paths, the
/// provably best segmentation first.
pub fn update_candidates(context: &mut AkazaContext, engine: &Engine)
    requires
        old(context).wf(),
        engine.wf(),
    ensures
        final(context).wf(),
        final(context).preedit@ == old(context).preedit@,
        final(context).input_mode == old(context).input_mode,
        final(context).in_henkan,
        final(context).candidates@.len() >= 1,
        final(context).candidates@.len() <= CANDIDATE_WINDOW,
        match final(context).lattice {
            Some(l) => {
                let cands = final(context).candidates@;
                &&& l.wf()
                &&& l.reading@ == spec_hiragana(old(context).preedit@, 0)
                &&& lattice_of_engine(*engine, l)
                &&& (l.reading@.len() == 0 ==> cands.len() == 1 && cands[0].nodes@.len() == 0
                    && cands[0].total_cost == 0)
                &&& (l.reading@.len() > 0 ==> forall|c: int| 0 <= c < cands.len() ==> path_complete(
                    l,
                    (#[trigger] cands[c]).nodes@,
                ) && cands[c].total_cost == path_cost(
                    l,
                    engine.bigram,
                    engine.overlay,
                    cands[c].nodes@,
                ))
                &&& (forall|c1: int, c2: int| 0 <= c1 < c2 < cands.len() ==> (
                #[trigger] cands[c1]).total_cost <= (#[trigger] cands[c2]).total_cost)
                &&& (l.reading@.len() > 0 ==> forall|p: Seq<usize>| path_complete(l, p)
                    ==> cands[0].total_cost <= #[trigger] path_cost(l, engine.bigram, engine.overlay, p))
                &&& (l.reading@.len() > 0 ==> forall|c: int| 0 <= c < cands.len() ==> is_min_to(
                    l,
                    engine.bigram,
                    engine.overlay,
                    (#[trigger] cands[c]).nodes@.last() as int,
                    cands[c].total_cost as int,
                ))
                &&& (l.reading@.len() > 0 ==> forall|c1: int, c2: int|
                    0 <= c1 < c2 < cands.len() ==> (#[trigger] cands[c1]).nodes@.last() != (
                #[trigger] cands[c2]).nodes@.last())
            },
            None => false,
        },
{
    let reading = context.romkan.to_hiragana(context.preedit.as_str());
    proof {
        lemma_hiragana_len(old(context).preedit@, 0);
    }
    let (lat, cands) = engine.convert(reading.as_str(), CANDIDATE_WINDOW);
    context.lattice = Some(lat);
    context.candidates = cands;
    context.in_henkan = true;
}

/// Normalization maps each unit to one character, so it never lengthens
/// the buffer.
proof fn lemma_hiragana_len(s: Seq<char>, i: int)
    requires
        0 <= i,
    ensures
        spec_hiragana(s, i).len() <= s.len() - i || spec_hiragana(s, i).len() == 0,
    decreases s.len() - i,
{
    if i < s.len() {
        let u = crate::romaji::spec_unit_at(s, i);
        if u.0 >= 1 {
            lemma_hiragana_len(s, i + u.0);
        }
    }
}

} // verus!
