//! Projections of the globe, as `proj4rs` makes them.

use crate::order::characters;
use crate::reprojection::WGS84_LONLAT;
use proj4rs::errors::Error;
use proj4rs::proj::Proj;
use vstd::prelude::*;

verus! {

/// A projection, as `proj4rs` holds it.
#[verifier::external_type_specification]
#[verifier::external_body]
pub struct ExProj(proj4rs::proj::Proj);

/// Why `proj4rs` refuses a projection.
#[verifier::external_type_specification]
#[verifier::external_body]
pub struct ExError(proj4rs::errors::Error);

/// A projection and the definition that it was made from.
pub struct ParsedProjection {
    definition: String,
    proj: Proj,
}

impl View for ParsedProjection {
    type V = Seq<char>;

    /// The definition.
    closed spec fn view(&self) -> Seq<char> {
        self.definition@
    }
}

impl ParsedProjection {
    /// What `proj4rs` holds of the projection.
    pub closed spec fn held(&self) -> Proj {
        self.proj
    }

    /// What `proj4rs` holds of the projection.
    pub fn proj(&self) -> (proj: &Proj)
        ensures
            *proj == self.held(),
    {
        &self.proj
    }
}

/// Whether `word` stands somewhere in `text`.
pub open spec fn holds(text: Seq<char>, word: Seq<char>) -> bool {
    exists|i: int|
        0 <= i <= text.len() - word.len() && #[trigger] text.subrange(i, i + word.len()) == word
}

/// Whether the datum NAD27 is named at `i`, in whatever case.
pub open spec fn names_nad27_at(text: Seq<char>, i: int) -> bool {
    &&& 0 <= i <= text.len() - 5
    &&& text[i] == 'n' || text[i] == 'N'
    &&& text[i + 1] == 'a' || text[i + 1] == 'A'
    &&& text[i + 2] == 'd' || text[i + 2] == 'D'
    &&& text[i + 3] == '2'
    &&& text[i + 4] == '7'
}

/// Whether a definition may ask for shift grids: by the parameter that names
/// them, or by the datum NAD27, which comes with some.
pub open spec fn may_ask_for_grids(text: Seq<char>) -> bool {
    holds(text, "nadgrids"@) || exists|i: int| names_nad27_at(text, i)
}

/// Whether `c` may stand in a plain number.
pub open spec fn is_numeric(c: char) -> bool {
    '0' <= c <= '9' || c == '.'
}

/// Whether the characters before `end`, back to a character at `i` that is not
/// ASCII, may all stand in a plain number.
pub open spec fn number_follows(text: Seq<char>, i: int, end: int) -> bool {
    0 <= i < end <= text.len() && text[i] as u32 >= 128 && forall|k: int|
        i < k < end ==> is_numeric(#[trigger] text[k])
}

/// Whether minutes or seconds that end at `end` follow a character that is not
/// ASCII.
pub open spec fn angle_breaks_at(text: Seq<char>, i: int, end: int) -> bool {
    end < text.len() && (text[end] == '\'' || text[end] == '"') && number_follows(text, i, end)
}

/// Whether a definition may hold an angle that breaks the parser: it cuts one
/// byte behind what stands before the minutes or seconds, and so inside a
/// character that takes more than one.
pub open spec fn breaks_an_angle(text: Seq<char>) -> bool {
    exists|i: int, end: int| angle_breaks_at(text, i, end)
}

/// Whether a definition may hold an angle that breaks the parser.
pub fn has_breaking_angle(text: &str) -> (found: bool)
    ensures
        found == breaks_an_angle(text@),
{
    let chars: Vec<char> = characters(text);
    let mut follows: bool = false;
    let mut n: usize = 0;
    while n < chars.len()
        invariant
            n <= chars@.len(),
            chars@ == text@,
            follows == exists|i: int| number_follows(text@, i, n as int),
            forall|i: int, end: int| end < n ==> !(#[trigger] angle_breaks_at(text@, i, end)),
        decreases chars@.len() - n,
    {
        let c: char = chars[n];
        if (c == '\'' || c == '"') && follows {
            proof {
                let i = choose|i: int| number_follows(text@, i, n as int);
                assert(angle_breaks_at(text@, i, n as int));
            }
            return true;
        }
        let numeric: bool = ('0' <= c && c <= '9') || c == '.';
        let ghost next = n + 1;
        proof {
            assert forall|i: int, end: int| end < next implies !(#[trigger] angle_breaks_at(
                text@,
                i,
                end,
            )) by {
                if end == n && angle_breaks_at(text@, i, end) {
                    assert(number_follows(text@, i, n as int));
                }
            }
            if c as u32 >= 128 {
                assert(number_follows(text@, n as int, next));
            } else {
                assert forall|i: int| #[trigger] number_follows(text@, i, next) implies numeric
                    && number_follows(text@, i, n as int) by {
                    assert(i != n);
                    assert(is_numeric(text@[n as int]));
                }
                if numeric && follows {
                    let i = choose|i: int| number_follows(text@, i, n as int);
                    assert(number_follows(text@, i, next));
                }
            }
        }
        follows = c as u32 >= 128 || (numeric && follows);
        n = n + 1;
    }
    assert forall|i: int, end: int| !(#[trigger] angle_breaks_at(text@, i, end)) by {}
    false
}

/// Whether `Proj::from_proj_string` makes a projection of a definition that
/// asks for no shift grids.
pub uninterp spec fn is_projection(text: Seq<char>) -> bool;

/// `proj4rs::proj::Proj::from_proj_string`. It is believed to make what it
/// makes from the definition that it is given, to accept the definition of
/// plain longitude and latitude, and to accept or refuse a definition that
/// asks for no shift grids by its text alone. Whether one that asks for grids
/// is accepted depends on the grids that the process has registered. How the
/// projection moves points is not said. It panics on some definitions with an
/// angle whose minutes or seconds follow a character that is not ASCII, so
/// none of these is handed to it.
#[verifier::external_body]
pub(crate) fn parse_projection(text: &str) -> (parsed: Result<ParsedProjection, Error>)
    requires
        !breaks_an_angle(text@),
    ensures
        parsed matches Ok(projection) ==> projection@ == text@,
        text@ == WGS84_LONLAT@ ==> parsed is Ok,
        !may_ask_for_grids(text@) ==> (parsed is Ok <==> is_projection(text@)),
{
    let proj = Proj::from_proj_string(text)?;
    Ok(ParsedProjection { definition: text.to_owned(), proj })
}

} // verus!
