//! From a network's own coordinates to longitude and latitude.

use crate::double::minus;
use crate::network::{Location, Point, Projection};
use crate::plane::Coord;
use crate::projection::{
    angle_breaks_at, breaks_an_angle, is_projection, may_ask_for_grids, number_follows,
    parse_projection, ParsedProjection,
};
use crate::quoting::{quote, quoted};
use proj4rs::errors::Error;
use vstd::prelude::*;

verus! {

/// Plain longitude and latitude.
pub const WGS84_LONLAT: &'static str = "+proj=longlat +ellps=WGS84 +datum=WGS84 +no_defs";

proof fn lemma_lonlat_is_ascii()
    ensures
        !breaks_an_angle(WGS84_LONLAT@),
{
    reveal_strlit("+proj=longlat +ellps=WGS84 +datum=WGS84 +no_defs");
    let text = WGS84_LONLAT@;
    assert forall|i: int, end: int| !(#[trigger] angle_breaks_at(text, i, end)) by {
        if angle_breaks_at(text, i, end) {
            assert(number_follows(text, i, end));
        }
    }
}

/// Why a network's coordinates cannot be turned into longitude and latitude.
#[derive(Debug)]
pub enum ReprojectionError {
    /// The network says nothing of where on the globe it lies.
    NotGeoreferenced,
    /// The network's projection has no usable definition; `cause` tells why.
    InvalidProjection { definition: String, cause: Error },
}

/// What a [`ReprojectionError`] tells its reader.
pub open spec fn error_text(error: ReprojectionError) -> Seq<char> {
    match error {
        ReprojectionError::NotGeoreferenced =>
            "network is not georeferenced (location/@projParameter is \"!\"): GeoJSON needs real-world coordinates, and an unprojected network has none to give"@,
        ReprojectionError::InvalidProjection { definition, .. } =>
            invalid_projection_text(quoted(definition@)),
    }
}

/// What tells that a definition, shown like this, is not one of a projection.
pub open spec fn invalid_projection_text(shown: Seq<char>) -> Seq<char> {
    "invalid PROJ4 string in .net.xml location: "@ + shown
}

/// What tells that a definition, shown like this, is not one of a projection.
pub fn invalid_projection_message(shown: &str) -> (text: String)
    ensures
        text@ == invalid_projection_text(shown@),
{
    let mut text: String = "invalid PROJ4 string in .net.xml location: ".to_owned();
    text.append(shown);
    text
}

impl ReprojectionError {
    /// What the error tells its reader.
    pub fn message(&self) -> (text: String)
        ensures
            text@ == error_text(*self),
    {
        match self {
            ReprojectionError::NotGeoreferenced =>
                "network is not georeferenced (location/@projParameter is \"!\"): GeoJSON needs real-world coordinates, and an unprojected network has none to give".to_owned(),
            ReprojectionError::InvalidProjection { definition, .. } => {
                let shown: String = quote(definition.as_str());
                invalid_projection_message(shown.as_str())
            },
        }
    }
}

/// Turns points of a network into longitude and latitude.
pub struct Reprojector {
    /// The network's projection.
    pub from: ParsedProjection,
    /// Plain longitude and latitude.
    pub to: ParsedProjection,
    /// What the network's coordinates were moved by.
    pub net_offset: Point,
}

impl Reprojector {
    /// The reprojector for a network whose projection has this definition and
    /// was parsed to this.
    pub fn from_parsed(
        definition: &String,
        parsed: Result<ParsedProjection, Error>,
        to: ParsedProjection,
        net_offset: Point,
    ) -> (made: Result<Reprojector, ReprojectionError>)
        ensures
            match parsed {
                Ok(from) => made == Ok::<Reprojector, ReprojectionError>(
                    (Reprojector { from, to, net_offset }),
                ),
                Err(error) => made matches Err(
                    ReprojectionError::InvalidProjection { definition: text, cause },
                ) && text@ == definition@ && cause == error,
            },
    {
        match parsed {
            Ok(from) => Ok(Reprojector { from, to, net_offset }),
            Err(cause) => Err(
                ReprojectionError::InvalidProjection { definition: definition.clone(), cause },
            ),
        }
    }

    /// The reprojector for a network at this location. It fails for a network
    /// that lies nowhere, and for one whose projection cannot be made. A
    /// definition that may break the parser is not for it.
    pub fn new(location: &Location) -> (made: Result<Reprojector, ReprojectionError>)
        requires
            location.projection matches Projection::Proj4(definition) ==> !breaks_an_angle(
                definition@,
            ),
        ensures
            match location.projection {
                Projection::Local => made == Err::<Reprojector, ReprojectionError>(
                    ReprojectionError::NotGeoreferenced,
                ),
                Projection::Proj4(definition) => {
                    &&& match made {
                        Ok(reprojector) => reprojector.from@ == definition@ && reprojector.to@
                            == WGS84_LONLAT@ && reprojector.net_offset == location.net_offset,
                        Err(error) => error matches ReprojectionError::InvalidProjection {
                            definition: text,
                            ..
                        } && text@ == definition@,
                    }
                    &&& definition@ == WGS84_LONLAT@ ==> made is Ok
                    &&& !may_ask_for_grids(definition@) ==> (made is Ok <==> is_projection(
                        definition@,
                    ))
                },
            },
    {
        match &location.projection {
            Projection::Local => Err(ReprojectionError::NotGeoreferenced),
            Projection::Proj4(definition) => {
                let parsed: Result<ParsedProjection, Error> = parse_projection(
                    definition.as_str(),
                );
                proof {
                    lemma_lonlat_is_ascii();
                }
                match parse_projection(WGS84_LONLAT) {
                    Ok(to) => Reprojector::from_parsed(
                        definition,
                        parsed,
                        to,
                        location.net_offset,
                    ),
                    Err(cause) => Err(
                        ReprojectionError::InvalidProjection {
                            definition: definition.clone(),
                            cause,
                        },
                    ),
                }
            },
        }
    }

    /// Where a point of the network lies in the coordinates of its projection.
    pub fn projected(&self, point: Point) -> (c: Coord)
        ensures
            c == (Coord {
                x: minus(point.x, self.net_offset.x),
                y: minus(point.y, self.net_offset.y),
            }),
    {
        Coord {
            x: point.x.subtract(self.net_offset.x),
            y: point.y.subtract(self.net_offset.y),
        }
    }
}

} // verus!
