//! What a person does at a place, and how long it nominally takes.

use vstd::prelude::*;
use vstd::string::StringExecFns;

verus! {

/// The activity a person pursues at a location.
#[derive(Debug, PartialEq, Eq, Hash, Clone, Copy, Structural)]
pub enum Purpose {
    Home,
    Leisure,
    Work,
    School,
    Service,
    Shopping,
}

/// The purpose that a label of the survey data stands for, if it is known.
pub open spec fn purpose_named(label: Seq<char>) -> Option<Purpose> {
    if label == "Arbeit"@ {
        Some(Purpose::Work)
    } else if label == "Dienstleistung"@ {
        Some(Purpose::Service)
    } else if label == "Einkaufen"@ {
        Some(Purpose::Shopping)
    } else if label == "Freizeit"@ {
        Some(Purpose::Leisure)
    } else if label == "Grundschule"@ {
        Some(Purpose::School)
    } else if label == "H\u{f6}rsaal"@ {
        Some(Purpose::School)
    } else if label == "H\u{f6}rsaalHin"@ {
        Some(Purpose::School)
    } else if label == "H\u{f6}rsaalplatz"@ {
        Some(Purpose::School)
    } else if label == "H\u{f6}rsaalR\u{fc}ck"@ {
        Some(Purpose::School)
    } else if label == "Service"@ {
        Some(Purpose::Service)
    } else if label == "Stud.Ziele"@ {
        Some(Purpose::School)
    } else if label == "weiterf.Schule"@ {
        Some(Purpose::School)
    } else if label == "Wohnen"@ {
        Some(Purpose::Home)
    } else {
        None
    }
}

/// The message for a label that names no purpose.
pub open spec fn unknown_purpose_message(label: Seq<char>) -> Seq<char> {
    "Unknown purpose string \""@ + label + "\"!"@
}

fn label_is(label: &String, name: &str) -> (same: bool)
    ensures
        same == (label@ == name@),
{
    let other = String::from_str(name);
    *label == other
}

impl Purpose {
    /// Nominal duration of the activity in seconds.
    pub open spec fn spec_duration(self) -> nat {
        match self {
            Purpose::Home => 28800,
            Purpose::Work => 28800,
            Purpose::School => 25200,
            Purpose::Leisure => 7200,
            Purpose::Shopping => 3600,
            Purpose::Service => 1800,
        }
    }

    /// Position of the purpose in the enumeration, from 0 to 5.
    pub open spec fn spec_index(self) -> nat {
        match self {
            Purpose::Home => 0,
            Purpose::Leisure => 1,
            Purpose::Work => 2,
            Purpose::School => 3,
            Purpose::Service => 4,
            Purpose::Shopping => 5,
        }
    }

    /// Nominal duration of the activity in seconds: eight hours at home and
    /// at work, seven at school, two of leisure, one of shopping, half an
    /// hour for a service.
    pub fn duration(&self) -> (secs: u64)
        ensures
            secs == self.spec_duration(),
    {
        match self {
            Purpose::Home => 28800,
            Purpose::Work => 28800,
            Purpose::School => 25200,
            Purpose::Leisure => 7200,
            Purpose::Shopping => 3600,
            Purpose::Service => 1800,
        }
    }

    /// Position of the purpose in the enumeration.
    pub fn index(&self) -> (i: usize)
        ensures
            i == self.spec_index(),
            i < 6,
    {
        match self {
            Purpose::Home => 0,
            Purpose::Leisure => 1,
            Purpose::Work => 2,
            Purpose::School => 3,
            Purpose::Service => 4,
            Purpose::Shopping => 5,
        }
    }

    /// Reads a purpose from its label in the survey data. An unknown label
    /// gives an error message that quotes it.
    pub fn from_str(s: &str) -> (parsed: Result<Purpose, String>)
        ensures
            match purpose_named(s@) {
                Some(purpose) => parsed == Ok::<Purpose, String>(purpose),
                None => parsed.is_err() && parsed.unwrap_err()@ == unknown_purpose_message(s@),
            },
    {
        let label = String::from_str(s);
        if label_is(&label, "Arbeit") {
            Ok(Purpose::Work)
        } else if label_is(&label, "Dienstleistung") {
            Ok(Purpose::Service)
        } else if label_is(&label, "Einkaufen") {
            Ok(Purpose::Shopping)
        } else if label_is(&label, "Freizeit") {
            Ok(Purpose::Leisure)
        } else if label_is(&label, "Grundschule") {
            Ok(Purpose::School)
        } else if label_is(&label, "H\u{f6}rsaal") {
            Ok(Purpose::School)
        } else if label_is(&label, "H\u{f6}rsaalHin") {
            Ok(Purpose::School)
        } else if label_is(&label, "H\u{f6}rsaalplatz") {
            Ok(Purpose::School)
        } else if label_is(&label, "H\u{f6}rsaalR\u{fc}ck") {
            Ok(Purpose::School)
        } else if label_is(&label, "Service") {
            Ok(Purpose::Service)
        } else if label_is(&label, "Stud.Ziele") {
            Ok(Purpose::School)
        } else if label_is(&label, "weiterf.Schule") {
            Ok(Purpose::School)
        } else if label_is(&label, "Wohnen") {
            Ok(Purpose::Home)
        } else {
            let message = String::from_str("Unknown purpose string \"").concat(s).concat("\"!");
            Err(message)
        }
    }
}

} // verus!
