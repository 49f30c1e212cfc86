use vstd::prelude::*;

use crate::error::EngineError;
use crate::metric::{mode_at, MetricMode};
use crate::ordering::{
    all_have_key, has_key, key_at, order_entries, sorted_by, FileEntry, OrderKey,
};
use crate::pixels::{rect_mean, PixelBuffer, PixelsView, Rect};

verus! {

/// Where the input images come from, as found on disk.
#[derive(Debug)]
pub enum Source {
    /// A directory, with the regular files directly inside it.
    Directory(Vec<FileEntry>),
    /// A single regular file.
    File(String),
    /// Neither a readable directory nor a regular file.
    Missing,
}

/// The resolved settings of one run.
#[derive(Debug)]
pub struct Config {
    /// Directory (or single file) that holds the images.
    pub image_dir: String,
    /// Ordering key: 0 file name, 1 creation time, 2 modification time.
    pub order_by: u8,
    /// Reverse the ordering.
    pub descending: bool,
    /// Metric: 0 mean of RGB, 1 luma, 2 R, 3 G, 4 B, 5 H, 6 S, 7 V.
    pub mode: u8,
    /// Region of interest; all four are given or none.
    pub top_left_x: Option<u32>,
    pub top_left_y: Option<u32>,
    pub width: Option<u32>,
    pub height: Option<u32>,
    /// Where the text report goes, if anywhere.
    pub output_data_path: Option<String>,
    /// Where the chart goes, if anywhere.
    pub output_plot_path: Option<String>,
}

/// The rectangle measured of an image of the given size: the region of
/// interest when all four of its fields are given, else the whole image.
pub open spec fn roi_of(cfg: Config, width: int, height: int) -> Result<Rect, EngineError> {
    match (cfg.top_left_x, cfg.top_left_y, cfg.width, cfg.height) {
        (Some(x), Some(y), Some(w), Some(h)) => {
            if w > 0 && h > 0 && x + w <= width && y + h <= height {
                Ok(Rect { x, y, width: w, height: h })
            } else {
                Err(EngineError::Roi)
            }
        },
        (None, None, None, None) => {
            if width > 0 && height > 0 {
                Ok(Rect { x: 0, y: 0, width: width as u32, height: height as u32 })
            } else {
                Err(EngineError::Roi)
            }
        },
        _ => Err(EngineError::Config),
    }
}

/// The aggregate of one image under `cfg`.
pub open spec fn mean_of(cfg: Config, img: PixelsView) -> Result<int, EngineError> {
    match mode_at(cfg.mode as int) {
        None => Err(EngineError::Config),
        Some(mode) => match roi_of(cfg, img.width, img.height) {
            Err(e) => Err(e),
            Ok(rect) => Ok(rect_mean(mode, img, rect)),
        },
    }
}

/// `paths` are the paths of `entries` ordered by `key`.
pub open spec fn ordered_paths_of(
    entries: Seq<FileEntry>,
    key: OrderKey,
    descending: bool,
    paths: Seq<Seq<char>>,
) -> bool {
    exists|s: Seq<FileEntry>|
        {
            &&& s.to_multiset() == entries.to_multiset()
            &&& sorted_by(key, s, descending)
            &&& paths.len() == s.len()
            &&& forall|i: int| 0 <= i < s.len() ==> paths[i] == (#[trigger] s[i]).path@
        }
}

/// A region of interest that covers the whole image measures what no
/// region of interest measures.
pub proof fn lemma_full_roi(cfg: Config, img: PixelsView)
    requires
        0 <= img.width <= u32::MAX,
        0 <= img.height <= u32::MAX,
        cfg.top_left_x == Some(0u32),
        cfg.top_left_y == Some(0u32),
        cfg.width == Some(img.width as u32),
        cfg.height == Some(img.height as u32),
    ensures
        mean_of(cfg, img) == mean_of(
            Config { top_left_x: None, top_left_y: None, width: None, height: None, ..cfg },
            img,
        ),
{
}

impl Config {
    /// The rectangle to measure of an image of `width` by `height` pixels.
    pub fn get_image_roi(&self, width: u32, height: u32) -> (r: Result<Rect, EngineError>)
        ensures
            r == roi_of(*self, width as int, height as int),
    {
        match (self.top_left_x, self.top_left_y, self.width, self.height) {
            (Some(x), Some(y), Some(w), Some(h)) => {
                if w > 0 && h > 0 && x as u64 + w as u64 <= width as u64 && y as u64 + h as u64
                    <= height as u64 {
                    Ok(Rect { x, y, width: w, height: h })
                } else {
                    Err(EngineError::Roi)
                }
            },
            (None, None, None, None) => {
                if width > 0 && height > 0 {
                    Ok(Rect { x: 0, y: 0, width, height })
                } else {
                    Err(EngineError::Roi)
                }
            },
            _ => Err(EngineError::Config),
        }
    }

    /// The aggregate of one decoded image: the mean of the selected metric
    /// over its region of interest, in units of `1 / UNIT`, rounded down.
    pub fn get_mean_val(&self, image: &PixelBuffer) -> (r: Result<u64, EngineError>)
        ensures
            r is Ok <==> mean_of(*self, image@) is Ok,
            r matches Ok(v) ==> mean_of(*self, image@) == Ok::<int, EngineError>(v as int),
            r matches Err(e) ==> mean_of(*self, image@) == Err::<int, EngineError>(e),
    {
        let mode = match MetricMode::from_index(self.mode) {
            Ok(m) => m,
            Err(e) => return Err(e),
        };
        match self.get_image_roi(image.width(), image.height()) {
            Ok(rect) => Ok(image.mean_over(mode, rect)),
            Err(e) => Err(e),
        }
    }

    /// The input paths in processing order. A single file is its own
    /// sequence; a directory's files are sorted by the configured key, and
    /// the whole sequence is reversed when descending.
    pub fn get_ordered_image_paths(&self, source: Source) -> (r: Result<Vec<String>, EngineError>)
        ensures
            source is Missing ==> r == Err::<Vec<String>, EngineError>(EngineError::Path),
            source matches Source::File(p) ==> r matches Ok(v) && v@.len() == 1 && v@[0]@ == p@,
            source matches Source::Directory(entries) ==> match key_at(self.order_by as int) {
                None => r == Err::<Vec<String>, EngineError>(EngineError::Config),
                Some(key) => if forall|i: int|
                    0 <= i < entries@.len() ==> has_key(key, #[trigger] entries@[i]) {
                    r matches Ok(v) && ordered_paths_of(
                        entries@,
                        key,
                        self.descending,
                        v@.map_values(|p: String| p@),
                    )
                } else {
                    r == Err::<Vec<String>, EngineError>(EngineError::Metadata)
                },
            },
    {
        match source {
            Source::Missing => Err(EngineError::Path),
            Source::File(p) => {
                let mut v: Vec<String> = Vec::new();
                v.push(p);
                Ok(v)
            },
            Source::Directory(entries) => {
                let key = match OrderKey::from_index(self.order_by) {
                    Ok(k) => k,
                    Err(e) => return Err(e),
                };
                if !all_have_key(key, &entries) {
                    return Err(EngineError::Metadata);
                }
                let ordered = order_entries(entries, key, self.descending);
                let mut paths: Vec<String> = Vec::new();
                let mut i: usize = 0;
                while i < ordered.len()
                    invariant
                        i <= ordered.len(),
                        paths@.len() == i,
                        forall|k: int| 0 <= k < i ==> (#[trigger] paths@[k])@ == ordered@[k].path@,
                    decreases ordered.len() - i,
                {
                    paths.push(ordered[i].path.clone());
                    i = i + 1;
                }
                let ghost mapped = paths@.map_values(|p: String| p@);
                assert(forall|k: int| 0 <= k < ordered@.len() ==> mapped[k] == (#[trigger] ordered@[k]).path@);
                Ok(paths)
            },
        }
    }
}

} // verus!
