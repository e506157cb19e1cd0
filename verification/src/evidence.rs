//! Repositories, sources, citations, media and notes.
use crate::raw::RawGedcom;
use crate::types::{DateValue, EntityId};
use vstd::prelude::*;

verus! {

#[derive(Debug, PartialEq, Eq, Default)]
pub enum RepositoryType {
    #[default]
    Archive,
    Library,
    Website,
    PersonalCollection,
    Custom(String),
}

impl Clone for RepositoryType {
    fn clone(&self) -> (r: Self)
        ensures
            r == *self,
    {
        match self {
            RepositoryType::Archive => RepositoryType::Archive,
            RepositoryType::Library => RepositoryType::Library,
            RepositoryType::Website => RepositoryType::Website,
            RepositoryType::PersonalCollection => RepositoryType::PersonalCollection,
            RepositoryType::Custom(s) => RepositoryType::Custom(s.clone()),
        }
    }
}

#[derive(Debug, Clone, PartialEq, Eq)]
pub struct Repository {
    pub id: EntityId,
    pub name: String,
    pub repository_type: RepositoryType,
    pub address: Option<String>,
    pub urls: Vec<String>,
    pub original_xref: Option<String>,
    pub _raw_gedcom: RawGedcom,
}

#[derive(Debug, PartialEq, Eq)]
pub struct RepositoryRef {
    pub repository_id: EntityId,
    pub call_number: Option<String>,
    pub media_type: Option<String>,
}

impl Clone for RepositoryRef {
    fn clone(&self) -> (r: Self)
        ensures
            r == *self,
    {
        RepositoryRef {
            repository_id: self.repository_id,
            call_number: self.call_number.clone(),
            media_type: self.media_type.clone(),
        }
    }
}

#[derive(Debug, Clone, PartialEq, Eq)]
pub struct Source {
    pub id: EntityId,
    pub title: String,
    pub author: Option<String>,
    pub publication_info: Option<String>,
    pub abbreviation: Option<String>,
    pub repository_refs: Vec<RepositoryRef>,
    pub original_xref: Option<String>,
    pub _raw_gedcom: RawGedcom,
}

#[derive(Debug, Clone, PartialEq, Eq)]
pub struct Citation {
    pub id: EntityId,
    pub source_id: EntityId,
    pub volume: Option<String>,
    pub page: Option<String>,
    pub folio: Option<String>,
    pub entry: Option<String>,
    pub confidence_level: Option<u8>,
    pub date_accessed: Option<DateValue>,
    pub transcription: Option<String>,
    pub _raw_gedcom: RawGedcom,
}

#[derive(Debug, PartialEq, Eq)]
pub struct CitationRef {
    pub citation_id: EntityId,
    pub note: Option<String>,
}

impl Clone for CitationRef {
    fn clone(&self) -> (r: Self)
        ensures
            r == *self,
    {
        CitationRef {
            citation_id: self.citation_id,
            note: self.note.clone(),
        }
    }
}

#[derive(Debug, Clone, PartialEq, Eq, Structural)]
pub struct DimensionsPx {
    pub width: u32,
    pub height: u32,
}

#[derive(Debug, Clone, PartialEq, Eq, Structural)]
pub struct DimensionsMm {
    pub width_mm: u32,
    pub height_mm: u32,
}

#[derive(Debug, Clone, PartialEq, Eq, Structural)]
pub struct CropRectPct {
    /// Left offset as percentage [0..100]
    pub x_pct: u8,
    /// Top offset as percentage [0..100]
    pub y_pct: u8,
    /// Width as percentage [0..100]
    pub width_pct: u8,
    /// Height as percentage [0..100]
    pub height_pct: u8,
}

#[derive(Debug, Clone, PartialEq, Eq)]
pub struct Media {
    pub id: EntityId,
    pub file_path: String,
    pub content_hash: String,
    pub mime_type: String,
    pub thumbnail_path: Option<String>,
    pub ocr_text: Option<String>,
    pub dimensions_px: Option<DimensionsPx>,
    pub physical_dimensions_mm: Option<DimensionsMm>,
    pub caption: Option<String>,
    pub original_xref: Option<String>,
    pub _raw_gedcom: RawGedcom,
}

#[derive(Debug, Clone, PartialEq, Eq)]
pub struct MediaRef {
    pub media_id: EntityId,
    pub crop_rect_pct: Option<CropRectPct>,
    pub caption: Option<String>,
}

#[derive(Debug, PartialEq, Eq, Default)]
pub enum NoteType {
    #[default]
    General,
    Research,
    Transcript,
    SourceText,
    Todo,
    Custom(String),
}

impl Clone for NoteType {
    fn clone(&self) -> (r: Self)
        ensures
            r == *self,
    {
        match self {
            NoteType::General => NoteType::General,
            NoteType::Research => NoteType::Research,
            NoteType::Transcript => NoteType::Transcript,
            NoteType::SourceText => NoteType::SourceText,
            NoteType::Todo => NoteType::Todo,
            NoteType::Custom(s) => NoteType::Custom(s.clone()),
        }
    }
}

#[derive(Debug, Clone, PartialEq, Eq)]
pub struct Note {
    pub id: EntityId,
    pub text: String,
    pub note_type: NoteType,
    pub original_xref: Option<String>,
    pub _raw_gedcom: RawGedcom,
}

#[derive(Debug, Clone, PartialEq, Eq, Structural)]
pub struct NoteRef {
    pub note_id: EntityId,
}

} // verus!
