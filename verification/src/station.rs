//! The monitoring-station record: identity codes, position in microdegrees,
//! descriptive metadata, and the derived isolation score in meters.

use vstd::prelude::*;
use vstd::string::StringExecFns;
use crate::geo::{valid_lat, valid_lon};

verus! {

/// The canonical station id: `"{state_code}-{county_code}-{site_number}"`.
pub open spec fn spec_station_id(state: Seq<char>, county: Seq<char>, site: Seq<char>) -> Seq<
    char,
> {
    state + seq!['-'] + county + seq!['-'] + site
}

/// An air-quality monitoring station. Coordinates are in microdegrees
/// (degrees times one million); the derived isolation score, once computed,
/// is the average distance in meters to the station's nearest neighbors.
pub struct Station {
    pub state_code: String,
    pub county_code: String,
    pub site_number: String,
    pub latitude_udeg: i64,
    pub longitude_udeg: i64,
    pub land_use: String,
    pub location_setting: String,
    pub site_name: String,
    pub state_name: String,
    pub county_name: String,
    pub city_name: String,
    pub id: String,
    pub avg_distance_to_neighbors: Option<u64>,
}

impl Station {
    /// The station's coordinates lie on the globe.
    pub open spec fn coords_valid(&self) -> bool {
        valid_lat(self.latitude_udeg as int) && valid_lon(self.longitude_udeg as int)
    }

    /// Derive the station's id from its state, county, and site codes.
    pub fn generate_id(&mut self)
        ensures
            final(self).id@ == spec_station_id(
                old(self).state_code@,
                old(self).county_code@,
                old(self).site_number@,
            ),
            final(self).state_code == old(self).state_code,
            final(self).county_code == old(self).county_code,
            final(self).site_number == old(self).site_number,
            final(self).latitude_udeg == old(self).latitude_udeg,
            final(self).longitude_udeg == old(self).longitude_udeg,
            final(self).land_use == old(self).land_use,
            final(self).location_setting == old(self).location_setting,
            final(self).site_name == old(self).site_name,
            final(self).state_name == old(self).state_name,
            final(self).county_name == old(self).county_name,
            final(self).city_name == old(self).city_name,
            final(self).avg_distance_to_neighbors == old(self).avg_distance_to_neighbors,
    {
        let mut id = self.state_code.clone();
        id.append("-");
        id.append(self.county_code.as_str());
        id.append("-");
        id.append(self.site_number.as_str());
        proof {
            reveal_strlit("-");
            assert("-"@ =~= seq!['-']);
            assert(id@ =~= spec_station_id(
                self.state_code@,
                self.county_code@,
                self.site_number@,
            ));
        }
        self.id = id;
    }
}

} // verus!
