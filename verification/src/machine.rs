//! Facts about the host, decided from plain values that the caller read: the
//! numbers of a block device, a sysfs `rotational` flag, the mount a path lies
//! under, hints in a path, the CPU brand text and the storage label.
use vstd::prelude::*;
use crate::text::{chars_of, trim, trimmed, string_from_chars, chars_eq};
use crate::discovery::{unicode_lower, to_lowercase, text_contains, contains_text};

verus! {

// ------------------------------------------------------------ device numbers

/// Major number of a Linux device number: bits 8..19.
pub open spec fn dev_major(dev: u64) -> int {
    (dev as int / 256) % 4096
}

/// Minor number of a Linux device number: the low byte, with bits 20..31
/// placed above it.
pub open spec fn dev_minor(dev: u64) -> int {
    dev as int % 256 + ((dev as int / 1048576) % 4096) * 256
}

/// The (major, minor) pair of a device number, as `/sys/dev/block/<major>:<minor>` names it.
pub fn device_numbers(dev: u64) -> (r: (u64, u64))
    ensures
        r.0 == dev_major(dev),
        r.1 == dev_minor(dev),
{
    let major = (dev >> 8) & 0xfff;
    let minor = (dev & 0xff) | ((dev >> 12) & 0xfff00);
    assert(((dev >> 8) & 0xfff) == (dev / 256) % 4096) by (bit_vector);
    assert(((dev & 0xff) | ((dev >> 12) & 0xfff00)) == dev % 256 + ((dev / 1048576) % 4096) * 256)
        by (bit_vector);
    (major, minor)
}

// ------------------------------------------------------------ sysfs flag

/// A `queue/rotational` file marks a spinning disk when it reads `1` once trimmed.
pub fn rotational_flag(content: &str) -> (r: bool)
    ensures
        r == (trim(content@) == seq!['1']),
{
    let t = trimmed(content);
    let cs = chars_of(t.as_str());
    let r = cs.len() == 1 && cs[0] == '1';
    proof {
        if cs@.len() == 1 {
            assert(cs@ =~= seq![cs@[0]]);
        }
    }
    r
}

// ------------------------------------------------------------ mounts

/// What the mount-point choice needs to know of one disk.
#[derive(Clone, Copy, Debug, PartialEq, Eq)]
pub struct MountFacts {
    /// The path lies under this disk's mount point.
    pub covers: bool,
    /// Length of the mount point's name.
    pub name_len: usize,
    /// The disk reports itself as a hard disk.
    pub hdd: bool,
}

/// `i` is the covering mount with the longest name, the first one among equals.
pub open spec fn is_best_mount(m: Seq<MountFacts>, i: int) -> bool {
    &&& 0 <= i < m.len()
    &&& m[i].covers
    &&& forall|j: int| 0 <= j < m.len() && (#[trigger] m[j]).covers ==> m[j].name_len <= m[i].name_len
    &&& forall|j: int| 0 <= j < i && (#[trigger] m[j]).covers ==> m[j].name_len < m[i].name_len
}

/// The mount a path lies under: of those that cover it, the one with the
/// longest name (the first of equals); `None` when none covers it.
pub fn best_mount(mounts: &Vec<MountFacts>) -> (r: Option<usize>)
    ensures
        r is None <==> (forall|j: int| 0 <= j < mounts@.len() ==> !(#[trigger] mounts@[j]).covers),
        r matches Some(i) ==> is_best_mount(mounts@, i as int),
{
    let mut best: Option<usize> = None;
    let mut k: usize = 0;
    while k < mounts.len()
        invariant
            k <= mounts@.len(),
            best is None <==> (forall|j: int| 0 <= j < k ==> !(#[trigger] mounts@[j]).covers),
            best matches Some(b) ==> {
                &&& b < k
                &&& mounts@[b as int].covers
                &&& forall|j: int| 0 <= j < k && (#[trigger] mounts@[j]).covers
                    ==> mounts@[j].name_len <= mounts@[b as int].name_len
                &&& forall|j: int| 0 <= j < b && (#[trigger] mounts@[j]).covers
                    ==> mounts@[j].name_len < mounts@[b as int].name_len
            },
        decreases mounts@.len() - k,
    {
        let m = mounts[k];
        if m.covers {
            match best {
                None => {
                    best = Some(k);
                },
                Some(b) => {
                    if m.name_len > mounts[b].name_len {
                        best = Some(k);
                    }
                },
            }
        }
        k = k + 1;
    }
    best
}

// ------------------------------------------------------------ path hints

/// The lowercased path names a download folder, an HDD mount or an external drive.
pub open spec fn spec_hints_hdd(path: Seq<char>) -> bool {
    let lower = unicode_lower(path);
    text_contains(lower, "descargas"@) || text_contains(lower, "/mnt/hdd"@)
        || text_contains(lower, "/media/hdd"@) || text_contains(lower, "ext-"@)
}

/// Whether the path's text hints at a spinning disk (see `spec_hints_hdd`).
pub fn path_hints_hdd(path: &str) -> (r: bool)
    ensures
        r == spec_hints_hdd(path@),
{
    let lowered = to_lowercase(path);
    let lower = chars_of(lowered.as_str());
    contains_text(&lower, &chars_of("descargas")) || contains_text(&lower, &chars_of("/mnt/hdd"))
        || contains_text(&lower, &chars_of("/media/hdd")) || contains_text(&lower, &chars_of("ext-"))
}

// ------------------------------------------------------------ text replacement

/// `s` with every occurrence of `pat`, from the left and without overlap,
/// replaced by `rep` (`str::replace`).
pub open spec fn replace_all(s: Seq<char>, pat: Seq<char>, rep: Seq<char>) -> Seq<char>
    decreases s.len(),
{
    if pat.len() == 0 || s.len() < pat.len() {
        s
    } else if s.take(pat.len() as int) == pat {
        rep + replace_all(s.skip(pat.len() as int), pat, rep)
    } else {
        seq![s[0]] + replace_all(s.skip(1), pat, rep)
    }
}

proof fn lemma_replace_short(s: Seq<char>, pat: Seq<char>, rep: Seq<char>)
    requires
        s.len() < pat.len(),
    ensures
        replace_all(s, pat, rep) == s,
{
}

/// `s` with every occurrence of a non-empty `pat` replaced by `rep`.
pub fn replace_chars(s: &Vec<char>, pat: &Vec<char>, rep: &Vec<char>) -> (r: Vec<char>)
    requires
        pat@.len() > 0,
    ensures
        r@ == replace_all(s@, pat@, rep@),
{
    let n = s.len();
    let p = pat.len();
    let mut out: Vec<char> = Vec::new();
    let mut i: usize = 0;
    proof {
        assert(s@.skip(0) =~= s@);
        assert(out@ + replace_all(s@, pat@, rep@) =~= replace_all(s@, pat@, rep@));
    }
    while i < n
        invariant
            n == s@.len(),
            p == pat@.len() > 0,
            i <= n,
            out@ + replace_all(s@.skip(i as int), pat@, rep@) == replace_all(s@, pat@, rep@),
        decreases n - i,
    {
        let ghost rest = s@.skip(i as int);
        let mut hit = p <= n - i;
        if hit {
            let mut q: usize = 0;
            while q < p
                invariant
                    p == pat@.len(),
                    i + p <= n == s@.len(),
                    q <= p,
                    hit == (forall|t: int| 0 <= t < q ==> s@[i + t] == pat@[t]),
                decreases p - q,
            {
                if s[i + q] != pat[q] {
                    hit = false;
                }
                q = q + 1;
            }
            proof {
                assert(hit == (rest.take(p as int) =~= pat@));
            }
        }
        if hit {
            let mut q: usize = 0;
            let ghost before = out@;
            while q < rep.len()
                invariant
                    q <= rep@.len(),
                    out@ == before + rep@.take(q as int),
                decreases rep@.len() - q,
            {
                out.push(rep[q]);
                q = q + 1;
                proof {
                    assert(out@ =~= before + rep@.take(q as int));
                }
            }
            proof {
                assert(rep@.take(rep@.len() as int) =~= rep@);
                assert(rest.skip(p as int) =~= s@.skip(i + p));
                assert(before + (rep@ + replace_all(s@.skip(i + p), pat@, rep@))
                    =~= out@ + replace_all(s@.skip(i + p), pat@, rep@));
            }
            i = i + p;
        } else {
            let ghost before = out@;
            out.push(s[i]);
            proof {
                assert(rest.skip(1) =~= s@.skip(i + 1));
                if rest.len() < p {
                    lemma_replace_short(rest, pat@, rep@);
                    lemma_replace_short(s@.skip(i + 1), pat@, rep@);
                    assert(rest =~= seq![s@[i as int]] + s@.skip(i + 1));
                } else {
                    assert(rest[0] == s@[i as int]);
                }
                assert(before + (seq![s@[i as int]] + replace_all(s@.skip(i + 1), pat@, rep@))
                    =~= out@ + replace_all(s@.skip(i + 1), pat@, rep@));
            }
            i = i + 1;
        }
    }
    proof {
        assert(s@.skip(n as int) =~= Seq::<char>::empty());
        assert(out@ + Seq::<char>::empty() =~= out@);
    }
    out
}

// ------------------------------------------------------------ CPU brand

/// The brand the report shows for a CPU whose raw brand text is `raw`
/// (`None` when the machine listed no CPU): trimmed, a stand-in for an empty
/// or `Unknown` brand, the `(R)` and `(TM)` marks dropped, double spaces
/// made single, trimmed again.
pub open spec fn spec_cpu_brand(raw: Option<Seq<char>>) -> Seq<char> {
    let b = match raw {
        Some(t) => trim(t),
        None => "General Purpose Processor"@,
    };
    let b = if b.len() == 0 || b == "Unknown"@ { "Zen-Compatible Processor"@ } else { b };
    trim(replace_all(replace_all(replace_all(b, "(R)"@, seq![]), "(TM)"@, seq![]), "  "@, " "@))
}

/// The CPU brand as the hardware summary shows it (see `spec_cpu_brand`).
pub fn cpu_brand(raw: Option<&str>) -> (r: String)
    ensures
        r@ == spec_cpu_brand(match raw { Some(t) => Some(t@), None => None }),
{
    let first: String = match raw {
        Some(t) => trimmed(t),
        None => string_from_chars(chars_of("General Purpose Processor").as_slice()),
    };
    let fc = chars_of(first.as_str());
    let unknown = chars_of("Unknown");
    let b: Vec<char> = if fc.len() == 0 || chars_eq(fc.as_slice(), unknown.as_slice()) {
        chars_of("Zen-Compatible Processor")
    } else {
        fc
    };
    let reg = chars_of("(R)");
    let tm = chars_of("(TM)");
    let two = chars_of("  ");
    let one = chars_of(" ");
    let empty: Vec<char> = Vec::new();
    proof {
        reveal_strlit("(R)");
        reveal_strlit("(TM)");
        reveal_strlit("  ");
    }
    let s1 = replace_chars(&b, &reg, &empty);
    let s2 = replace_chars(&s1, &tm, &empty);
    let s3 = replace_chars(&s2, &two, &one);
    proof {
        assert(empty@ =~= Seq::<char>::empty());
    }
    let joined = string_from_chars(s3.as_slice());
    trimmed(joined.as_str())
}

// ------------------------------------------------------------ storage label

/// What the storage label needs to know of one disk.
#[derive(Clone, Copy, Debug, PartialEq, Eq)]
pub struct DiskFacts {
    pub removable: bool,
    /// The disk reports itself as a hard disk.
    pub hdd: bool,
    /// The disk's mount point lies on a rotational device.
    pub rotational: bool,
}

/// Some fixed disk is a hard disk or spins.
pub open spec fn has_spinning_disk(d: Seq<DiskFacts>) -> bool {
    exists|i: int| 0 <= i < d.len() && !(#[trigger] d[i]).removable && (d[i].hdd || d[i].rotational)
}

/// `HDD` when some fixed disk is a hard disk or spins, `SSD/M.2` otherwise.
pub fn storage_label(disks: &Vec<DiskFacts>) -> (r: &'static str)
    ensures
        r@ == (if has_spinning_disk(disks@) { "HDD"@ } else { "SSD/M.2"@ }),
{
    let mut k: usize = 0;
    while k < disks.len()
        invariant
            k <= disks@.len(),
            forall|j: int| 0 <= j < k ==> !(!(#[trigger] disks@[j]).removable && (disks@[j].hdd || disks@[j].rotational)),
        decreases disks@.len() - k,
    {
        let d = disks[k];
        if !d.removable && (d.hdd || d.rotational) {
            return "HDD";
        }
        k = k + 1;
    }
    "SSD/M.2"
}

} // verus!
