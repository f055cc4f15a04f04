use vstd::prelude::*;

use crate::metainfo::{FileModeInfo, MultiFileInfo};

verus! {

/// One output file: its path below the output directory, its length and its
/// declared MD5 digest.
#[derive(Debug)]
pub struct FileInfo {
    pub path: Vec<String>,
    pub length: u64,
    pub md5sum: Option<[u8; 16]>,
}

pub open spec fn strings_view(s: Seq<String>) -> Seq<Seq<char>> {
    s.map_values(|x: String| x@)
}

#[derive(Debug)]
pub enum FileError {
    /// The pieces ran out before the output file with this index was full.
    CopyError(usize, u64),
    Md5Mismatch { filename: String, expected: String, received: String },
}

fn clone_strings(v: &Vec<String>) -> (r: Vec<String>)
    ensures
        strings_view(r@) == strings_view(v@),
{
    let mut out: Vec<String> = Vec::new();
    let mut i: usize = 0;
    while i < v.len()
        invariant
            i <= v@.len(),
            out@.len() == i,
            strings_view(out@) == strings_view(v@.take(i as int)),
        decreases v@.len() - i,
    {
        let c = v[i].clone();
        let ghost before = out@;
        out.push(c);
        proof {
            assert(c@ == v@[i as int]@);
            assert forall|j: int| 0 <= j < i + 1 implies strings_view(out@)[j] == strings_view(v@.take(i + 1))[j] by {
                if j < i {
                    assert(out@[j] == before[j]);
                    assert(strings_view(before)[j] == strings_view(v@.take(i as int))[j]);
                }
            }
            assert(strings_view(out@) =~= strings_view(v@.take(i + 1)));
        }
        i = i + 1;
    }
    proof {
        assert(v@.take(i as int) =~= v@);
    }
    out
}

impl FileModeInfo {
    /// The output files in declared order: the named file, or each file of the
    /// list below the named directory.
    pub fn files(&self) -> (r: Vec<FileInfo>)
        ensures
            match self {
                FileModeInfo::Single { filename, length, md5sum } => {
                    &&& r@.len() == 1
                    &&& strings_view(r@[0].path@) == seq![filename@]
                    &&& r@[0].length == length
                    &&& r@[0].md5sum == md5sum
                },
                FileModeInfo::Multiple { directory, files } => {
                    &&& r@.len() == files@.len()
                    &&& forall|i: int|
                        0 <= i < r@.len() ==> {
                            &&& strings_view((#[trigger] r@[i]).path@) == seq![directory@] + strings_view(files@[i].path@)
                            &&& r@[i].length == files@[i].length
                            &&& r@[i].md5sum == files@[i].md5sum
                        }
                },
            },
    {
        match self {
            FileModeInfo::Single { filename, length, md5sum } => {
                let mut path: Vec<String> = Vec::new();
                path.push(filename.clone());
                proof {
                    assert(strings_view(path@) =~= seq![filename@]);
                }
                let mut v: Vec<FileInfo> = Vec::new();
                v.push(FileInfo { path, length: *length, md5sum: *md5sum });
                proof {
                    assert(strings_view(v@[0].path@) =~= seq![filename@]);
                }
                v
            },
            FileModeInfo::Multiple { directory, files } => {
                let mut v: Vec<FileInfo> = Vec::new();
                let mut i: usize = 0;
                while i < files.len()
                    invariant
                        i <= files@.len(),
                        v@.len() == i,
                        forall|j: int|
                            0 <= j < i ==> {
                                &&& strings_view((#[trigger] v@[j]).path@) == seq![directory@] + strings_view(files@[j].path@)
                                &&& v@[j].length == files@[j].length
                                &&& v@[j].md5sum == files@[j].md5sum
                            },
                    decreases files@.len() - i,
                {
                    let file: &MultiFileInfo = &files[i];
                    let mut path: Vec<String> = Vec::new();
                    path.push(directory.clone());
                    let rest = clone_strings(&file.path);
                    proof {
                        assert(rest@.take(0) =~= Seq::<String>::empty());
                        assert(strings_view(path@) =~= seq![directory@] + strings_view(rest@.take(0)));
                    }
                    let mut k: usize = 0;
                    while k < rest.len()
                        invariant
                            k <= rest@.len(),
                            path@.len() == k + 1,
                            strings_view(path@) == seq![directory@] + strings_view(rest@.take(k as int)),
                        decreases rest@.len() - k,
                    {
                        let c = rest[k].clone();
                        let ghost before = path@;
                        path.push(c);
                        proof {
                            let target = seq![directory@] + strings_view(rest@.take(k + 1));
                            let prev = seq![directory@] + strings_view(rest@.take(k as int));
                            assert forall|j: int| 0 <= j < k + 2 implies strings_view(path@)[j] == target[j] by {
                                if j < k + 1 {
                                    assert(path@[j] == before[j]);
                                    assert(strings_view(before)[j] == prev[j]);
                                }
                            }
                            assert(strings_view(path@) =~= target);
                        }
                        k = k + 1;
                    }
                    proof {
                        assert(rest@.take(k as int) =~= rest@);
                        assert(strings_view(rest@) == strings_view(file.path@));
                    }
                    v.push(FileInfo { path, length: file.length, md5sum: file.md5sum });
                    i = i + 1;
                }
                v
            },
        }
    }
}

pub open spec fn views(s: Seq<Vec<u8>>) -> Seq<Seq<u8>> {
    s.map_values(|v: Vec<u8>| v@)
}

/// The byte strings of `s`, one after another.
pub open spec fn flatten(s: Seq<Seq<u8>>) -> Seq<u8>
    decreases s.len(),
{
    if s.len() == 0 {
        Seq::empty()
    } else {
        flatten(s.drop_last()) + s.last()
    }
}

pub open spec fn sum_lengths(s: Seq<u64>) -> nat
    decreases s.len(),
{
    if s.len() == 0 {
        0
    } else {
        sum_lengths(s.drop_last()) + s.last() as nat
    }
}

/// Cuts the concatenated pieces into consecutive files of the given lengths.
/// The files, one after another, are the pieces one after another cut to the
/// files' total length; `CopyError` names the first file that the pieces do not
/// fill.
pub fn reassemble(pieces: &Vec<Vec<u8>>, lengths: &Vec<u64>) -> (r: Result<Vec<Vec<u8>>, FileError>)
    ensures
        match r {
            Ok(files) => {
                &&& sum_lengths(lengths@) <= flatten(views(pieces@)).len()
                &&& files@.len() == lengths@.len()
                &&& forall|i: int| 0 <= i < files@.len() ==> (#[trigger] files@[i])@.len() == lengths@[i]
                &&& flatten(views(files@)) == flatten(views(pieces@)).take(sum_lengths(lengths@) as int)
            },
            Err(FileError::CopyError(i, n)) => {
                &&& sum_lengths(lengths@) > flatten(views(pieces@)).len()
                &&& i < lengths@.len()
                &&& n == lengths@[i as int]
                &&& sum_lengths(lengths@.take(i as int)) <= flatten(views(pieces@)).len()
                &&& sum_lengths(lengths@.take(i + 1)) > flatten(views(pieces@)).len()
            },
            Err(_) => false,
        },
{
    let mut stream: Vec<u8> = Vec::new();
    let mut k: usize = 0;
    while k < pieces.len()
        invariant
            k <= pieces@.len(),
            stream@ == flatten(views(pieces@.take(k as int))),
        decreases pieces@.len() - k,
    {
        crate::tracker::push_all(&mut stream, pieces[k].as_slice());
        proof {
            assert(views(pieces@.take(k + 1)).drop_last() =~= views(pieces@.take(k as int)));
        }
        k = k + 1;
    }
    proof {
        assert(pieces@.take(k as int) =~= pieces@);
    }
    let ghost all = stream@;
    let mut files: Vec<Vec<u8>> = Vec::new();
    let mut pos: usize = 0;
    let mut i: usize = 0;
    proof {
        assert(lengths@.take(0) =~= Seq::<u64>::empty());
        assert(views(files@) =~= Seq::<Seq<u8>>::empty());
        assert(all.take(0) =~= Seq::<u8>::empty());
    }
    while i < lengths.len()
        invariant
            i <= lengths@.len(),
            all == stream@,
            all == flatten(views(pieces@)),
            pos == sum_lengths(lengths@.take(i as int)),
            pos <= all.len(),
            files@.len() == i,
            forall|j: int| 0 <= j < i ==> (#[trigger] files@[j])@.len() == lengths@[j],
            flatten(views(files@)) == all.take(pos as int),
        decreases lengths@.len() - i,
    {
        let n = lengths[i];
        proof {
            assert(lengths@.take(i + 1).drop_last() =~= lengths@.take(i as int));
        }
        if n as u128 > (stream.len() - pos) as u128 {
            proof {
                assert(sum_lengths(lengths@.take(i + 1)) > all.len());
                lemma_sum_prefix(lengths@, i + 1);
            }
            return Err(FileError::CopyError(i, n));
        }
        let end = pos + n as usize;
        let mut chunk: Vec<u8> = Vec::new();
        let mut q = pos;
        while q < end
            invariant
                pos <= q <= end <= stream@.len(),
                chunk@ == stream@.subrange(pos as int, q as int),
            decreases end - q,
        {
            chunk.push(stream[q]);
            proof {
                assert(chunk@ =~= stream@.subrange(pos as int, q + 1));
            }
            q = q + 1;
        }
        let ghost before = files@;
        files.push(chunk);
        proof {
            assert(views(files@).drop_last() =~= views(before));
            assert(all.take(end as int) =~= all.take(pos as int) + all.subrange(pos as int, end as int));
        }
        pos = end;
        i = i + 1;
    }
    proof {
        assert(lengths@.take(i as int) =~= lengths@);
    }
    Ok(files)
}

proof fn lemma_sum_prefix(s: Seq<u64>, k: int)
    requires
        0 <= k <= s.len(),
    ensures
        sum_lengths(s.take(k)) <= sum_lengths(s),
    decreases s.len(),
{
    if k < s.len() {
        lemma_sum_prefix(s.drop_last(), k);
        assert(s.drop_last().take(k) =~= s.take(k));
    } else {
        assert(s.take(k) =~= s);
    }
}

/// Checks a written file against its declared MD5 digest; on a mismatch the
/// error gives both digests in hexadecimal.
pub fn verify_md5(filename: String, expected: &[u8; 16], contents: &[u8]) -> (r: Result<(), FileError>)
    ensures
        r is Ok <==> crate::md5::md5(contents@) == expected@,
        match r {
            Err(FileError::Md5Mismatch { filename: f, expected: e, received: g }) => {
                &&& f@ == filename@
                &&& e@ == crate::util::hex_text(expected@).map_values(|b: u8| b as char)
                &&& g@ == crate::util::hex_text(crate::md5::md5(contents@)).map_values(|b: u8| b as char)
            },
            Err(_) => false,
            Ok(_) => true,
        },
{
    let got = crate::md5::md5_hash(contents);
    let mut i: usize = 0;
    while i < 16
        invariant
            i <= 16,
            got@ == crate::md5::md5(contents@),
            forall|j: int| 0 <= j < i ==> got@[j] == expected@[j],
        decreases 16 - i,
    {
        if got[i] != expected[i] {
            proof {
                assert(got@[i as int] != expected@[i as int]);
            }
            return Err(FileError::Md5Mismatch {
                filename,
                expected: crate::util::to_string(expected),
                received: crate::util::to_string(&got),
            });
        }
        i = i + 1;
    }
    proof {
        assert(got@ =~= expected@);
    }
    Ok(())
}

} // verus!
