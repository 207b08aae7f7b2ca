//! Profiles as JSON documents: the fields beside the profile that record what
//! was detected when it was measured.

use crate::rank::topology::builders::built;
use crate::rank::topology::profile::Detected;
use crate::rank::topology::tuning::{CollectiveTuning, ProfileModel, TuningModel};
use crate::rank::topology::{CollectiveAutotuneProfile, TopologyError, TopologyFailure};
use vstd::prelude::*;
use vstd::string::*;

verus! {

/// A field of a profile document that may hold a text.
#[derive(Debug, Clone, PartialEq, Eq)]
pub enum DocumentField {
    Missing,
    Null,
    Text(String),
    Other,
}

/// Such a field as plain data.
pub enum FieldModel {
    Missing,
    Null,
    Text(Seq<char>),
    Other,
}

impl View for DocumentField {
    type V = FieldModel;

    open spec fn view(&self) -> FieldModel {
        match *self {
            DocumentField::Missing => FieldModel::Missing,
            DocumentField::Null => FieldModel::Null,
            DocumentField::Text(text) => FieldModel::Text(text@),
            DocumentField::Other => FieldModel::Other,
        }
    }
}

/// Why `serde_json::from_str` refuses a text as a JSON value, if it does.
pub uninterp spec fn json_complaint(text: Seq<char>) -> Option<Seq<char>>;

/// What `serde_json::Value::get` finds under a name in the value of a text.
pub uninterp spec fn json_field(text: Seq<char>, name: Seq<char>) -> FieldModel;

/// Parses a text with `serde_json::from_str` and looks a name up with
/// `serde_json::Value::get`. Claimed: both depend on the text and the name
/// alone; whether the text is refused, and why, does not depend on the name.
#[verifier::external_body]
fn read_json_field(text: &str, name: &str) -> (result: Result<DocumentField, String>)
    ensures
        match json_complaint(text@) {
            Some(complaint) => result is Err && result->Err_0@ == complaint,
            None => result is Ok && result->Ok_0@ == json_field(text@, name@),
        },
{
    match serde_json::from_str::<serde_json::Value>(text) {
        Err(error) => Err(error.to_string()),
        Ok(document) => match document.get(name) {
            None => Ok(DocumentField::Missing),
            Some(serde_json::Value::Null) => Ok(DocumentField::Null),
            Some(serde_json::Value::String(text)) => Ok(DocumentField::Text(text.clone())),
            Some(serde_json::Value::Bool(_)) => Ok(DocumentField::Other),
            Some(serde_json::Value::Number(_)) => Ok(DocumentField::Other),
            Some(serde_json::Value::Array(_)) => Ok(DocumentField::Other),
            Some(serde_json::Value::Object(_)) => Ok(DocumentField::Other),
        },
    }
}

/// The text of a field: none where it is missing or null, and a refusal where
/// it holds anything else.
pub open spec fn field_text(name: Seq<char>, field: FieldModel) -> Result<
    Option<Seq<char>>,
    TopologyFailure,
> {
    match field {
        FieldModel::Missing | FieldModel::Null => Ok(None),
        FieldModel::Text(text) => Ok(Some(text)),
        FieldModel::Other => Err(
            TopologyFailure::InvalidProfile(name + " must be a string or null"@),
        ),
    }
}

pub fn document_text<'a>(name: &str, field: &'a DocumentField) -> (result: Result<
    Option<&'a str>,
    TopologyError,
>)
    ensures
        match field_text(name@, field@) {
            Ok(None) => result is Ok && result->Ok_0 is None,
            Ok(Some(text)) => result is Ok && result->Ok_0 is Some && (result->Ok_0->0)@ == text,
            Err(failure) => result is Err && result->Err_0@ == failure,
        },
{
    match field {
        DocumentField::Missing => Ok(None),
        DocumentField::Null => Ok(None),
        DocumentField::Text(text) => Ok(Some(text.as_str())),
        DocumentField::Other => {
            let mut message = String::from_str(name);
            message.append(" must be a string or null");
            Err(TopologyError::InvalidProfile(message))
        },
    }
}

/// What a profile document records of the topology that was detected.
#[derive(Debug, Clone, PartialEq, Eq)]
pub struct ProfileDocument {
    pub links: DocumentField,
    pub rail_links: DocumentField,
    pub aggregate_links: DocumentField,
}

/// The same as plain data.
pub struct DocumentModel {
    pub links: FieldModel,
    pub rail_links: FieldModel,
    pub aggregate_links: FieldModel,
}

impl View for ProfileDocument {
    type V = DocumentModel;

    open spec fn view(&self) -> DocumentModel {
        DocumentModel {
            links: self.links@,
            rail_links: self.rail_links@,
            aggregate_links: self.aggregate_links@,
        }
    }
}

/// The document that a text spells, or why it spells none.
pub open spec fn document_of(text: Seq<char>) -> Result<DocumentModel, Seq<char>> {
    match json_complaint(text) {
        Some(complaint) => Err(complaint),
        None => Ok(
            DocumentModel {
                links: json_field(text, "detected_topology_links"@),
                rail_links: json_field(text, "detected_topology_rail_links"@),
                aggregate_links: json_field(text, "detected_topology_aggregate_links"@),
            },
        ),
    }
}

/// What parsing gave, as plain data.
pub open spec fn parsed<T: View>(result: Result<T, String>) -> Result<T::V, Seq<char>> {
    match result {
        Ok(value) => Ok(value@),
        Err(complaint) => Err(complaint@),
    }
}

pub fn read_document(text: &str) -> (result: Result<ProfileDocument, String>)
    ensures
        parsed(result) == document_of(text@),
{
    let links = match read_json_field(text, "detected_topology_links") {
        Ok(field) => field,
        Err(complaint) => {
            return Err(complaint);
        },
    };
    let rail_links = match read_json_field(text, "detected_topology_rail_links") {
        Ok(field) => field,
        Err(complaint) => {
            return Err(complaint);
        },
    };
    let aggregate_links = match read_json_field(text, "detected_topology_aggregate_links") {
        Ok(field) => field,
        Err(complaint) => {
            return Err(complaint);
        },
    };
    Ok(ProfileDocument { links, rail_links, aggregate_links })
}

/// A setting that was read, as plain data.
pub open spec fn setting(result: Result<bool, TopologyError>) -> Result<bool, TopologyFailure> {
    match result {
        Ok(value) => Ok(value),
        Err(error) => Err(error@),
    }
}

/// A file that holds no profile.
pub open spec fn not_json(path: Seq<char>, complaint: Seq<char>) -> TopologyFailure {
    TopologyFailure::InvalidProfile(path + " is not valid JSON: "@ + complaint)
}

fn not_json_error(path: &str, complaint: &str) -> (error: TopologyError)
    ensures
        error@ == not_json(path@, complaint@),
{
    let mut message = String::from_str(path);
    message.append(" is not valid JSON: ");
    message.append(complaint);
    TopologyError::InvalidProfile(message)
}

impl TuningModel {
    /// The tuning with the profile of a document that was read from a path. The
    /// first of these that fails refuses it: the document, its three fields in
    /// turn, the profile, the setting, and whether the profile fits.
    pub open spec fn with_profile_document(
        self,
        path: Seq<char>,
        document: Result<DocumentModel, Seq<char>>,
        profile: Result<ProfileModel, Seq<char>>,
        allowed: Result<bool, TopologyFailure>,
    ) -> Result<TuningModel, TopologyFailure> {
        match document {
            Err(complaint) => Err(not_json(path, complaint)),
            Ok(document) => match field_text("detected_topology_links"@, document.links) {
                Err(failure) => Err(failure),
                Ok(links) => match field_text(
                    "detected_topology_rail_links"@,
                    document.rail_links,
                ) {
                    Err(failure) => Err(failure),
                    Ok(rail_links) => match field_text(
                        "detected_topology_aggregate_links"@,
                        document.aggregate_links,
                    ) {
                        Err(failure) => Err(failure),
                        Ok(aggregate_links) => match profile {
                            Err(complaint) => Err(not_json(path, complaint)),
                            Ok(profile) => match allowed {
                                Err(failure) => Err(failure),
                                Ok(allowed) => self.with_profile(
                                    profile,
                                    Detected { links, rail_links, aggregate_links, allowed },
                                ),
                            },
                        },
                    },
                },
            },
        }
    }

    /// The tuning with the profile of a text that was read from a path.
    pub open spec fn with_profile_text(
        self,
        path: Seq<char>,
        text: Seq<char>,
        profile: Result<ProfileModel, Seq<char>>,
        allowed: Result<bool, TopologyFailure>,
    ) -> Result<TuningModel, TopologyFailure> {
        self.with_profile_document(path, document_of(text), profile, allowed)
    }
}

impl CollectiveTuning {
    /// Takes the profile of a document that was read from a path, with what
    /// the profile part of the same text parsed to.
    pub fn with_autotune_profile_document(
        self,
        path: &str,
        document: Result<ProfileDocument, String>,
        profile: Result<CollectiveAutotuneProfile, String>,
        allow_detected_topology: Result<bool, TopologyError>,
    ) -> (result: Result<Self, TopologyError>)
        requires
            self@.valid(),
        ensures
            built(
                result,
                self@.with_profile_document(
                    path@,
                    parsed(document),
                    parsed(profile),
                    setting(allow_detected_topology),
                ),
            ),
    {
        let document = match document {
            Ok(document) => document,
            Err(complaint) => {
                return Err(not_json_error(path, complaint.as_str()));
            },
        };
        let links = match document_text("detected_topology_links", &document.links) {
            Ok(text) => text,
            Err(error) => {
                return Err(error);
            },
        };
        let rail_links = match document_text("detected_topology_rail_links", &document.rail_links) {
            Ok(text) => text,
            Err(error) => {
                return Err(error);
            },
        };
        let aggregate_links = match document_text(
            "detected_topology_aggregate_links",
            &document.aggregate_links,
        ) {
            Ok(text) => text,
            Err(error) => {
                return Err(error);
            },
        };
        let profile = match profile {
            Ok(profile) => profile,
            Err(complaint) => {
                return Err(not_json_error(path, complaint.as_str()));
            },
        };
        let allowed = match allow_detected_topology {
            Ok(allowed) => allowed,
            Err(error) => {
                return Err(error);
            },
        };
        self.with_detected_autotune_profile(profile, links, rail_links, aggregate_links, allowed)
    }

    /// Takes the profile of a text that was read from a path, with what the
    /// profile part of it parsed to.
    pub fn with_autotune_profile_text(
        self,
        path: &str,
        text: &str,
        profile: Result<CollectiveAutotuneProfile, String>,
        allow_detected_topology: Result<bool, TopologyError>,
    ) -> (result: Result<Self, TopologyError>)
        requires
            self@.valid(),
        ensures
            built(
                result,
                self@.with_profile_text(
                    path@,
                    text@,
                    parsed(profile),
                    setting(allow_detected_topology),
                ),
            ),
    {
        self.with_autotune_profile_document(
            path,
            read_document(text),
            profile,
            allow_detected_topology,
        )
    }
}

} // verus!
