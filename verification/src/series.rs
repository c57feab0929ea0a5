use vstd::prelude::*;

verus! {

/// Mathematical view of a tracked series: its text fields as byte sequences.
pub ghost struct SeriesView {
    pub name: Seq<u8>,
    pub short_name: Seq<u8>,
    pub url: Seq<u8>,
    pub current_chapter: u32,
}

/// One tracked series, as loaded from the config file: a display name, a
/// unique short name, a URL template containing the chapter placeholder,
/// and the last chapter already read. Text is carried as UTF-8 bytes.
#[derive(Debug)]
pub struct TrackedSeries {
    pub name: Vec<u8>,
    pub short_name: Vec<u8>,
    pub url: Vec<u8>,
    pub current_chapter: u32,
}

impl View for TrackedSeries {
    type V = SeriesView;

    open spec fn view(&self) -> SeriesView {
        SeriesView {
            name: self.name@,
            short_name: self.short_name@,
            url: self.url@,
            current_chapter: self.current_chapter,
        }
    }
}

/// The view of a whole config: each series by its view, in config order.
pub open spec fn config_view(cfg: Seq<TrackedSeries>) -> Seq<SeriesView> {
    cfg.map_values(|s: TrackedSeries| s@)
}

/// Mathematical view of one planned or successful probe.
pub ghost struct ProbeTargetView {
    pub name: Seq<u8>,
    pub url: Seq<u8>,
}

/// A probe target: the series' name together with the candidate URL for its
/// next chapter. The same type carries a confirmed match after probing.
#[derive(Debug)]
pub struct ProbeTarget {
    pub name: Vec<u8>,
    pub url: Vec<u8>,
}

impl View for ProbeTarget {
    type V = ProbeTargetView;

    open spec fn view(&self) -> ProbeTargetView {
        ProbeTargetView { name: self.name@, url: self.url@ }
    }
}

/// The view of a list of probe targets, in order.
pub open spec fn targets_view(ts: Seq<ProbeTarget>) -> Seq<ProbeTargetView> {
    ts.map_values(|t: ProbeTarget| t@)
}

/// Why a config could not be loaded: the file was unreadable, or its
/// content did not parse as a series list.
#[derive(Clone, Copy, PartialEq, Eq, Structural, Debug)]
pub enum ConfigError {
    Read,
    Parse,
}

impl ConfigError {
    /// The diagnostic line for this error; the caller appends the offending
    /// path.
    pub fn message(&self) -> (r: &'static str)
        ensures
            self is Read ==> r@ == "Unable to read config file"@,
            self is Parse ==> r@ == "Unable to parse config file"@,
    {
        match self {
            ConfigError::Read => "Unable to read config file",
            ConfigError::Parse => "Unable to parse config file",
        }
    }
}

/// An exact byte-for-byte copy of a byte string.
pub fn copy_bytes(v: &Vec<u8>) -> (r: Vec<u8>)
    ensures
        r@ == v@,
{
    let mut out: Vec<u8> = Vec::new();
    let mut i: usize = 0;
    while i < v.len()
        invariant
            i <= v.len(),
            out@ =~= v@.take(i as int),
        decreases v.len() - i,
    {
        out.push(v[i]);
        i = i + 1;
    }
    proof {
        assert(out@ =~= v@);
    }
    out
}

/// Whether two byte strings hold the same bytes.
pub fn bytes_eq(a: &Vec<u8>, b: &Vec<u8>) -> (r: bool)
    ensures
        r == (a@ == b@),
{
    if a.len() != b.len() {
        proof {
            assert(a@.len() != b@.len());
        }
        return false;
    }
    let mut i: usize = 0;
    while i < a.len()
        invariant
            i <= a.len(),
            a@.len() == b@.len(),
            forall|j: int| 0 <= j < i ==> a@[j] == b@[j],
        decreases a.len() - i,
    {
        if a[i] != b[i] {
            return false;
        }
        i = i + 1;
    }
    proof {
        assert(a@ =~= b@);
    }
    true
}

} // verus!
