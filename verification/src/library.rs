//! Picking the image files of an image library out of a directory listing.
use vstd::prelude::*;

verus! {

/// Where an image library lives and which files of it count as images.
pub struct LibraryConfig {
    pub library_path: String,
    pub search_subdirectories: bool,
    /// File extensions (without the dot) of the supported image formats.
    pub supported_formats: Vec<String>,
}

/// What the file system says of one entry of the library directory.
pub struct DirEntryInfo {
    pub path: String,
    pub is_file: bool,
    pub is_dir: bool,
    /// The entry's extension, where its name has one.
    pub extension: Option<String>,
}

/// What the file system says of the library path.
pub enum LibraryListing {
    Missing,
    NotADirectory,
    /// Listing the directory, or one of its entries, failed.
    Unreadable,
    Entries(Vec<DirEntryInfo>),
}

/// `formats` holds `ext`.
pub open spec fn has_format(formats: Seq<String>, ext: Seq<char>) -> bool {
    exists|i: int| 0 <= i < formats.len() && (#[trigger] formats[i])@ == ext
}

/// The entry is a file whose extension is one of `formats`.
pub open spec fn is_library_image(e: DirEntryInfo, formats: Seq<String>) -> bool {
    e.is_file && match e.extension {
        Some(ext) => has_format(formats, ext@),
        None => false,
    }
}

/// The entry makes the listing recurse into the library again.
pub open spec fn recurses(e: DirEntryInfo, formats: Seq<String>, search: bool) -> bool {
    !is_library_image(e, formats) && e.is_dir && search
}

/// The paths of the entries that are images, in listing order.
pub open spec fn library_images(entries: Seq<DirEntryInfo>, formats: Seq<String>) -> Seq<Seq<char>>
    decreases entries.len(),
{
    if entries.len() == 0 {
        Seq::empty()
    } else {
        let rest = library_images(entries.drop_last(), formats);
        if is_library_image(entries.last(), formats) {
            rest.push(entries.last().path@)
        } else {
            rest
        }
    }
}

fn has_format_exec(formats: &Vec<String>, ext: &String) -> (b: bool)
    ensures
        b == has_format(formats@, ext@),
{
    let mut i: usize = 0;
    while i < formats.len()
        invariant
            i <= formats@.len(),
            forall|j: int| 0 <= j < i ==> (#[trigger] formats@[j])@ != ext@,
        decreases formats@.len() - i,
    {
        if formats[i] == *ext {
            return true;
        }
        i += 1;
    }
    false
}

/// The image files directly in the library directory. Every other entry is
/// skipped, but a subdirectory, when subdirectories are searched, makes the
/// listing start over on the same library path, without end; such listings
/// are excluded.
pub fn load_image_library(config: &LibraryConfig, listing: &LibraryListing) -> (res: Result<Vec<String>, String>)
    requires
        listing matches LibraryListing::Entries(es) ==> forall|i: int|
            0 <= i < es@.len() ==> !recurses(
                #[trigger] es@[i],
                config.supported_formats@,
                config.search_subdirectories,
            ),
    ensures
        listing is Missing ==> (res matches Err(e) && e@ == "Library path doesn't exist!"@),
        listing is NotADirectory ==> (res matches Err(e) && e@
            == "Library path is not a directory!"@),
        listing is Unreadable ==> (res matches Err(e) && e@
            == "Failed to read directory entries!"@),
        listing matches LibraryListing::Entries(es) ==> (res matches Ok(paths) && paths@.map_values(
            |p: String| p@,
        ) == library_images(es@, config.supported_formats@)),
{
    match listing {
        LibraryListing::Missing => Err("Library path doesn't exist!".to_string()),
        LibraryListing::NotADirectory => Err("Library path is not a directory!".to_string()),
        LibraryListing::Unreadable => Err("Failed to read directory entries!".to_string()),
        LibraryListing::Entries(entries) => {
            let mut images: Vec<String> = Vec::new();
            let mut i: usize = 0;
            while i < entries.len()
                invariant
                    i <= entries@.len(),
                    images@.map_values(|p: String| p@) == library_images(
                        entries@.take(i as int),
                        config.supported_formats@,
                    ),
                decreases entries@.len() - i,
            {
                let entry = &entries[i];
                let ghost before = images@;
                let is_image = entry.is_file && match &entry.extension {
                    Some(ext) => has_format_exec(&config.supported_formats, ext),
                    None => false,
                };
                proof {
                    assert(entries@.take(i + 1).drop_last() =~= entries@.take(i as int));
                    assert(entries@.take(i + 1).last() == *entry);
                }
                if is_image {
                    images.push(entry.path.clone());
                    proof {
                        assert(images@.map_values(|p: String| p@) =~= before.map_values(
                            |p: String| p@,
                        ).push(entry.path@));
                    }
                }
                i += 1;
            }
            proof {
                assert(entries@.take(entries@.len() as int) =~= entries@);
            }
            Ok(images)
        },
    }
}

} // verus!
