//! The names of the heuristics. A heuristic is chosen by its name, written
//! in capital or small letters.

use vstd::prelude::*;
use vstd::string::*;
use vstd::utf8::is_ascii_chars;
use crate::heuristic::SortHeuristic;

verus! {

/// The code of a character, with the capital letters A to Z taken as the
/// small ones.
pub open spec fn folded(c: char) -> int {
    if 'A' <= c <= 'Z' {
        c as int + 32
    } else {
        c as int
    }
}

/// Whether two names are the same but for the case of their ASCII letters.
pub open spec fn same_name(a: Seq<char>, b: Seq<char>) -> bool {
    &&& a.len() == b.len()
    &&& forall|i: int| 0 <= i < a.len() ==> folded(a[i]) == folded(b[i])
}

/// The code of a byte, folded as a character's is.
fn folded_byte(b: u8) -> (code: u8)
    requires
        b < 128,
    ensures
        code as int == if 65 <= b <= 90 {
            b + 32
        } else {
            b as int
        },
{
    if b >= 65 && b <= 90 {
        b + 32
    } else {
        b
    }
}

/// A name with a character outside ASCII matches no ASCII name.
proof fn lemma_ascii_matches_ascii_only(given: Seq<char>, name: Seq<char>)
    requires
        !is_ascii_chars(given),
        is_ascii_chars(name),
    ensures
        !same_name(given, name),
{
    if given.len() == name.len() {
        let i = choose|i: int| 0 <= i < given.len() && !('\0' <= #[trigger] given[i] <= '\u{7f}');
        assert('\0' <= name[i] <= '\u{7f}');
        assert(folded(given[i]) != folded(name[i]));
    }
}

/// Compares a name with an ASCII name, taking capital letters as small ones.
fn names_match(given: &str, name: &str) -> (same: bool)
    requires
        is_ascii_chars(name@),
    ensures
        same == same_name(given@, name@),
{
    if !given.is_ascii() {
        proof {
            lemma_ascii_matches_ascii_only(given@, name@);
        }
        return false;
    }
    let x = given.as_bytes();
    let y = name.as_bytes();
    proof {
        is_ascii_spec_bytes(given);
        is_ascii_spec_bytes(name);
    }
    if x.len() != y.len() {
        return false;
    }
    let mut i: usize = 0;
    while i < x.len()
        invariant
            i <= x@.len(),
            x@.len() == y@.len(),
            x@.len() == given@.len(),
            y@.len() == name@.len(),
            is_ascii_chars(given@),
            is_ascii_chars(name@),
            x@ == Seq::new(given@.len(), |j: int| given@[j] as u8),
            y@ == Seq::new(name@.len(), |j: int| name@[j] as u8),
            forall|j: int| 0 <= j < i ==> folded(given@[j]) == folded(name@[j]),
        decreases x@.len() - i,
    {
        let ghost c = given@[i as int];
        let ghost d = name@[i as int];
        assert('\0' <= c <= '\u{7f}' && '\0' <= d <= '\u{7f}');
        assert(x@[i as int] == c as u8 && y@[i as int] == d as u8);
        if folded_byte(x[i]) != folded_byte(y[i]) {
            assert(folded(c) != folded(d));
            return false;
        }
        assert(folded(c) == folded(d));
        i += 1;
    }
    true
}

impl SortHeuristic {
    /// The name of a heuristic.
    pub open spec fn spec_name(self) -> Seq<char> {
        match self {
            SortHeuristic::Luma => "Luma"@,
            SortHeuristic::Brightness => "Brightness"@,
            SortHeuristic::Max => "Max"@,
            SortHeuristic::Min => "Min"@,
            SortHeuristic::Chroma => "Chroma"@,
            SortHeuristic::Hue => "Hue"@,
            SortHeuristic::Saturation => "Saturation"@,
            SortHeuristic::Value => "Value"@,
            SortHeuristic::Red => "Red"@,
            SortHeuristic::Blue => "Blue"@,
            SortHeuristic::Green => "Green"@,
        }
    }

    /// What tells the names apart, even where capital and small letters are
    /// not told apart: the length and the first two letters, as small ones.
    spec fn marks(self) -> (int, int, int) {
        match self {
            SortHeuristic::Luma => (4, 'l' as int, 'u' as int),
            SortHeuristic::Brightness => (10, 'b' as int, 'r' as int),
            SortHeuristic::Max => (3, 'm' as int, 'a' as int),
            SortHeuristic::Min => (3, 'm' as int, 'i' as int),
            SortHeuristic::Chroma => (6, 'c' as int, 'h' as int),
            SortHeuristic::Hue => (3, 'h' as int, 'u' as int),
            SortHeuristic::Saturation => (10, 's' as int, 'a' as int),
            SortHeuristic::Value => (5, 'v' as int, 'a' as int),
            SortHeuristic::Red => (3, 'r' as int, 'e' as int),
            SortHeuristic::Blue => (4, 'b' as int, 'l' as int),
            SortHeuristic::Green => (5, 'g' as int, 'r' as int),
        }
    }

    /// Every name is made of ASCII letters, and has the marks of its
    /// heuristic.
    proof fn lemma_name_is_ascii(self)
        ensures
            is_ascii_chars(self.spec_name()),
            self.spec_name().len() == self.marks().0,
            folded(self.spec_name()[0]) == self.marks().1,
            folded(self.spec_name()[1]) == self.marks().2,
    {
        reveal_strlit("Luma");
        reveal_strlit("Brightness");
        reveal_strlit("Max");
        reveal_strlit("Min");
        reveal_strlit("Chroma");
        reveal_strlit("Hue");
        reveal_strlit("Saturation");
        reveal_strlit("Value");
        reveal_strlit("Red");
        reveal_strlit("Blue");
        reveal_strlit("Green");
    }

    /// No two heuristics have the same name, even where capital and small
    /// letters are not told apart.
    pub proof fn lemma_names_differ(self, other: SortHeuristic, given: Seq<char>)
        requires
            same_name(given, self.spec_name()),
            same_name(given, other.spec_name()),
        ensures
            self == other,
    {
        self.lemma_name_is_ascii();
        other.lemma_name_is_ascii();
        assert(folded(given[0]) == folded(self.spec_name()[0]));
        assert(folded(given[1]) == folded(self.spec_name()[1]));
        assert(folded(given[0]) == folded(other.spec_name()[0]));
        assert(folded(given[1]) == folded(other.spec_name()[1]));
    }

    /// All heuristics, in the order in which they are listed.
    pub open spec fn spec_variants() -> Seq<SortHeuristic> {
        seq![
            SortHeuristic::Luma,
            SortHeuristic::Brightness,
            SortHeuristic::Max,
            SortHeuristic::Min,
            SortHeuristic::Chroma,
            SortHeuristic::Hue,
            SortHeuristic::Saturation,
            SortHeuristic::Value,
            SortHeuristic::Red,
            SortHeuristic::Blue,
            SortHeuristic::Green,
        ]
    }

    /// The list of all heuristics leaves none out.
    pub proof fn lemma_variants_are_all(self)
        ensures
            Self::spec_variants().contains(self),
    {
        let all = Self::spec_variants();
        match self {
            SortHeuristic::Luma => assert(all[0] == self),
            SortHeuristic::Brightness => assert(all[1] == self),
            SortHeuristic::Max => assert(all[2] == self),
            SortHeuristic::Min => assert(all[3] == self),
            SortHeuristic::Chroma => assert(all[4] == self),
            SortHeuristic::Hue => assert(all[5] == self),
            SortHeuristic::Saturation => assert(all[6] == self),
            SortHeuristic::Value => assert(all[7] == self),
            SortHeuristic::Red => assert(all[8] == self),
            SortHeuristic::Blue => assert(all[9] == self),
            SortHeuristic::Green => assert(all[10] == self),
        }
    }

    /// All heuristics, in the order in which they are listed.
    pub fn variants() -> (all: Vec<SortHeuristic>)
        ensures
            all@ == Self::spec_variants(),
    {
        let mut all: Vec<SortHeuristic> = Vec::new();
        all.push(SortHeuristic::Luma);
        all.push(SortHeuristic::Brightness);
        all.push(SortHeuristic::Max);
        all.push(SortHeuristic::Min);
        all.push(SortHeuristic::Chroma);
        all.push(SortHeuristic::Hue);
        all.push(SortHeuristic::Saturation);
        all.push(SortHeuristic::Value);
        all.push(SortHeuristic::Red);
        all.push(SortHeuristic::Blue);
        all.push(SortHeuristic::Green);
        assert(all@ =~= Self::spec_variants());
        all
    }

    /// The heuristic of a name. Capital and small letters are not told apart:
    /// `luma`, `Luma` and `LUMA` all name the luma. A name that no heuristic
    /// has gives `None`. No name is the name of two heuristics.
    pub fn from_name(name: &str) -> (found: Option<SortHeuristic>)
        ensures
            match found {
                Some(h) => same_name(name@, h.spec_name()),
                None => forall|h: SortHeuristic| !same_name(name@, #[trigger] h.spec_name()),
            },
    {
        let all = Self::variants();
        let mut i: usize = 0;
        while i < all.len()
            invariant
                i <= all@.len(),
                all@ == Self::spec_variants(),
                forall|j: int| 0 <= j < i ==> !same_name(name@, (#[trigger] all@[j]).spec_name()),
            decreases all@.len() - i,
        {
            let h = all[i];
            proof {
                h.lemma_name_is_ascii();
            }
            if names_match(name, h.name()) {
                return Some(h);
            }
            i += 1;
        }
        proof {
            assert forall|h: SortHeuristic| !same_name(name@, h.spec_name()) by {
                h.lemma_variants_are_all();
                let j = choose|j: int| 0 <= j < all@.len() && all@[j] == h;
                assert(!same_name(name@, all@[j].spec_name()));
            }
        }
        None
    }

    /// The name of this heuristic.
    pub fn name(&self) -> (name: &'static str)
        ensures
            name@ == self.spec_name(),
    {
        match self {
            SortHeuristic::Luma => "Luma",
            SortHeuristic::Brightness => "Brightness",
            SortHeuristic::Max => "Max",
            SortHeuristic::Min => "Min",
            SortHeuristic::Chroma => "Chroma",
            SortHeuristic::Hue => "Hue",
            SortHeuristic::Saturation => "Saturation",
            SortHeuristic::Value => "Value",
            SortHeuristic::Red => "Red",
            SortHeuristic::Blue => "Blue",
            SortHeuristic::Green => "Green",
        }
    }
}

} // verus!
