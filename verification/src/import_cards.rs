//! Memory-card imports: which cards are being imported right now, so a
//! second import of the same card is refused instead of racing the first.
use vstd::prelude::*;
use crate::text::{append, chars_of, eq_exec, string_of, trim, trim_exec};

verus! {

broadcast use vstd::string::group_string_axioms;

/// Some one of the first `n` strings reads `x`.
pub open spec fn listed(v: Seq<String>, n: int, x: Seq<char>) -> bool {
    exists|j: int| 0 <= j < n && v[j]@ == x
}

/// The cards (by DCIM path) whose import is running.
pub struct ImportRegistry {
    running: Vec<String>,
}

impl ImportRegistry {
    pub closed spec fn cards(&self) -> Set<Seq<char>> {
        Set::new(|c: Seq<char>| listed(self.running@, self.running@.len() as int, c))
    }

    pub fn new() -> (r: ImportRegistry)
        ensures
            r.cards() == Set::<Seq<char>>::empty(),
    {
        let r = ImportRegistry { running: Vec::new() };
        assert(r.cards() =~= Set::<Seq<char>>::empty());
        r
    }

    fn position(&self, card: &[char]) -> (r: Option<usize>)
        ensures
            match r {
                Some(i) => i < self.running@.len() && self.running@[i as int]@ == card@,
                None => !self.cards().contains(card@),
            },
    {
        let mut i: usize = 0;
        while i < self.running.len()
            invariant
                i <= self.running@.len(),
                forall|j: int| 0 <= j < i ==> self.running@[j]@ != card@,
            decreases self.running@.len() - i,
        {
            if eq_exec(&chars_of(self.running[i].as_str()), card) {
                return Some(i);
            }
            i += 1;
        }
        None
    }

    /// Whether an import of `card` is running.
    pub fn is_running(&self, card: &str) -> (r: bool)
        ensures
            r == self.cards().contains(card@),
    {
        self.position(&chars_of(card)).is_some()
    }

    /// Register an import of `card`; refused while one is already running.
    pub fn begin(&mut self, card: &str) -> (r: Result<(), String>)
        ensures
            r is Ok <==> !old(self).cards().contains(card@),
            r is Ok ==> final(self).cards() == old(self).cards().insert(card@),
            r is Err ==> final(self).cards() == old(self).cards(),
            r matches Err(m) ==> m@ == "import already in progress for this card"@,
    {
        let c = chars_of(card);
        if self.position(&c).is_some() {
            return Err("import already in progress for this card".to_string());
        }
        let ghost before = self.running@;
        self.running.push(string_of(&c));
        assert forall|x: Seq<char>| self.cards().contains(x) == old(self).cards().insert(card@).contains(
            x,
        ) by {
            if x == card@ {
                assert(self.running@[before.len() as int]@ == x);
            } else if old(self).cards().contains(x) {
                let i = choose|i: int| 0 <= i < before.len() && before[i]@ == x;
                assert(self.running@[i] == before[i]);
            } else if self.cards().contains(x) {
                let i = choose|i: int| 0 <= i < self.running@.len() && self.running@[i]@ == x;
                assert(i < before.len());
                assert(before[i] == self.running@[i]);
            }
        }
        assert(self.cards() =~= old(self).cards().insert(card@));
        Ok(())
    }

    /// The import of `card` ended, however it ended.
    pub fn finish(&mut self, card: &str)
        ensures
            final(self).cards() == old(self).cards().remove(card@),
    {
        let c = chars_of(card);
        let ghost start = self.running@;
        let mut kept: Vec<String> = Vec::new();
        let mut i: usize = 0;
        while i < self.running.len()
            invariant
                i <= self.running@.len(),
                self.running@ == start,
                c@ == card@,
                forall|x: Seq<char>|
                    #[trigger] listed(kept@, kept@.len() as int, x) <==> (x != card@ && listed(
                        start,
                        i as int,
                        x,
                    )),
            decreases self.running@.len() - i,
        {
            let s = chars_of(self.running[i].as_str());
            let ghost prev = kept@;
            if !eq_exec(&s, &c) {
                kept.push(string_of(&s));
            }
            assert forall|x: Seq<char>|
                #[trigger] listed(kept@, kept@.len() as int, x) <==> (x != card@ && listed(
                    start,
                    i + 1,
                    x,
                )) by {
                if listed(kept@, kept@.len() as int, x) {
                    let j = choose|j: int| 0 <= j < kept@.len() && kept@[j]@ == x;
                    if j < prev.len() {
                        assert(prev[j] == kept@[j]);
                        assert(listed(prev, prev.len() as int, x));
                        let k = choose|k: int| 0 <= k < i && start[k]@ == x;
                        assert(0 <= k < i + 1 && start[k]@ == x);
                    } else {
                        assert(start[i as int]@ == x);
                    }
                }
                if x != card@ && listed(start, i + 1, x) {
                    let j = choose|j: int| 0 <= j < i + 1 && start[j]@ == x;
                    if j < i {
                        assert(listed(start, i as int, x));
                        assert(listed(prev, prev.len() as int, x));
                        let k = choose|k: int| 0 <= k < prev.len() && prev[k]@ == x;
                        assert(kept@[k] == prev[k]);
                    } else {
                        assert(kept@[prev.len() as int]@ == x);
                    }
                }
            }
            i += 1;
        }
        self.running = kept;
        assert forall|x: Seq<char>| self.cards().contains(x) == old(self).cards().remove(card@).contains(
            x,
        ) by {
            assert(self.cards().contains(x) == listed(kept@, kept@.len() as int, x));
            assert(old(self).cards().contains(x) == listed(start, start.len() as int, x));
        }
        assert(self.cards() =~= old(self).cards().remove(card@));
    }
}

/// A card is never imported twice at once: after one `begin` succeeds, a
/// second `begin` of the same card is refused until `finish`, and then
/// accepted again.
pub proof fn law_one_import_per_card(cards: Set<Seq<char>>, card: Seq<char>)
    requires
        !cards.contains(card),
    ensures
        cards.insert(card).contains(card),
        !cards.insert(card).remove(card).contains(card),
        cards.insert(card).remove(card) =~= cards,
{
}

/// What an import into an archive that is not a writable directory is
/// refused with, before anything is copied.
pub open spec fn destination_missing_of(archive: Seq<char>) -> Seq<char> {
    "Destination not found: \u{201c}"@ + archive + "\u{201d}. Mount the volume or choose an import folder."@
}

/// An import may start only into an archive that is a directory it can
/// write into (a NAS that is not mounted is not).
pub fn check_destination(archive: &str, writable_dir: bool) -> (r: Result<(), String>)
    ensures
        r is Ok <==> writable_dir,
        r matches Err(m) ==> m@ == destination_missing_of(archive@),
{
    if writable_dir {
        return Ok(());
    }
    let mut m = chars_of("Destination not found: \u{201c}");
    append(&mut m, &chars_of(archive));
    append(&mut m, &chars_of("\u{201d}. Mount the volume or choose an import folder."));
    Err(string_of(&m))
}

/// The date-folder pattern an import files photos under: the one set in
/// the preferences, unless it is missing or blank, then `default` (the
/// import engine's own).
pub open spec fn date_folder_format_of(setting: Option<Seq<char>>, default: Seq<char>) -> Seq<char> {
    match setting {
        Some(s) => if trim(s).len() > 0 {
            s
        } else {
            default
        },
        None => default,
    }
}

/// The date-folder pattern for an import.
pub fn date_folder_format(setting: Option<&str>, default: &str) -> (r: String)
    ensures
        r@ == date_folder_format_of(
            match setting {
                Some(s) => Some(s@),
                None => None,
            },
            default@,
        ),
{
    match setting {
        Some(s) => {
            let c = chars_of(s);
            if trim_exec(&c).len() > 0 {
                string_of(&c)
            } else {
                string_of(&chars_of(default))
            }
        },
        None => string_of(&chars_of(default)),
    }
}

} // verus!
