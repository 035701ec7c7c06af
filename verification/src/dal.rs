//! Which storage back end a configuration names.

use vstd::prelude::*;
use crate::error::ErrorCode;

verus! {

/// The storage back ends.
#[derive(Clone, Copy, Debug, PartialEq, Eq, Structural)]
pub enum StorageScheme {
    LocalFs,
    S3,
    AzureStorageBlob,
}

/// The upper-case form of an ASCII letter; any other byte as it is.
pub open spec fn upper(b: u8) -> u8 {
    if 97 <= b <= 122 {
        (b - 32) as u8
    } else {
        b
    }
}

/// Whether `name` spells the upper-case word `word`, in whatever case.
pub open spec fn spells(name: Seq<u8>, word: Seq<u8>) -> bool {
    &&& name.len() == word.len()
    &&& forall|i: int| 0 <= i < name.len() ==> upper(#[trigger] name[i]) == word[i]
}

/// `S3`
pub open spec fn word_s3() -> Seq<u8> {
    seq![0x53u8, 0x33u8]
}

/// `AZURE_STORAGE_BLOB`
pub open spec fn word_azure_storage_blob() -> Seq<u8> {
    seq![
        0x41u8, 0x5au8, 0x55u8, 0x52u8, 0x45u8, 0x5fu8, 0x53u8, 0x54u8, 0x4fu8, 0x52u8, 0x41u8, 0x47u8, 0x45u8, 0x5fu8, 0x42u8,
        0x4cu8, 0x4fu8, 0x42u8,
    ]
}

/// `LOCAL_FS`
pub open spec fn word_local_fs() -> Seq<u8> {
    seq![0x4cu8, 0x4fu8, 0x43u8, 0x41u8, 0x4cu8, 0x5fu8, 0x46u8, 0x53u8]
}

/// `LOCAL`
pub open spec fn word_local() -> Seq<u8> {
    seq![0x4cu8, 0x4fu8, 0x43u8, 0x41u8, 0x4cu8]
}

/// `DISK`
pub open spec fn word_disk() -> Seq<u8> {
    seq![0x44u8, 0x49u8, 0x53u8, 0x4bu8]
}

/// The back end that a name stands for: `S3`, `AZURE_STORAGE_BLOB`, or one
/// of `LOCAL_FS`, `LOCAL` and `DISK` for the local file system, in whatever
/// case.
pub open spec fn scheme_of(name: Seq<u8>) -> Option<StorageScheme> {
    if spells(name, word_s3()) {
        Some(StorageScheme::S3)
    } else if spells(name, word_azure_storage_blob()) {
        Some(StorageScheme::AzureStorageBlob)
    } else if spells(name, word_local_fs()) || spells(name, word_local()) || spells(name, word_disk()) {
        Some(StorageScheme::LocalFs)
    } else {
        None
    }
}

/// Whether `name` spells the upper-case word `word`, in whatever case.
pub fn spells_word(name: &[u8], word: &Vec<u8>) -> (b: bool)
    ensures
        b == spells(name@, word@),
{
    if name.len() != word.len() {
        return false;
    }
    let mut i: usize = 0;
    while i < name.len()
        invariant
            i <= name@.len(),
            name@.len() == word@.len(),
            forall|j: int| 0 <= j < i ==> upper(#[trigger] name@[j]) == word@[j],
        decreases name@.len() - i,
    {
        let b = name[i];
        let u = if 97 <= b && b <= 122 {
            b - 32
        } else {
            b
        };
        if u != word[i] {
            return false;
        }
        i += 1;
    }
    true
}

impl StorageScheme {
    /// The back end that `name` stands for; a name that stands for none is
    /// rejected.
    pub fn parse(name: &[u8]) -> (r: Result<StorageScheme, ErrorCode>)
        ensures
            r.is_ok() <==> scheme_of(name@).is_some(),
            r matches Ok(scheme) ==> scheme_of(name@) == Some(scheme),
            r matches Err(e) ==> e == ErrorCode::ConfigurationError,
    {
        let s3: Vec<u8> = vec![0x53u8, 0x33u8];
        let azure: Vec<u8> = vec![
            0x41u8, 0x5au8, 0x55u8, 0x52u8, 0x45u8, 0x5fu8, 0x53u8, 0x54u8, 0x4fu8, 0x52u8, 0x41u8, 0x47u8, 0x45u8, 0x5fu8,
            0x42u8, 0x4cu8, 0x4fu8, 0x42u8,
        ];
        let local_fs: Vec<u8> = vec![0x4cu8, 0x4fu8, 0x43u8, 0x41u8, 0x4cu8, 0x5fu8, 0x46u8, 0x53u8];
        let local: Vec<u8> = vec![0x4cu8, 0x4fu8, 0x43u8, 0x41u8, 0x4cu8];
        let disk: Vec<u8> = vec![0x44u8, 0x49u8, 0x53u8, 0x4bu8];
        assert(s3@ =~= word_s3());
        assert(azure@ =~= word_azure_storage_blob());
        assert(local_fs@ =~= word_local_fs());
        assert(local@ =~= word_local());
        assert(disk@ =~= word_disk());
        if spells_word(name, &s3) {
            Ok(StorageScheme::S3)
        } else if spells_word(name, &azure) {
            Ok(StorageScheme::AzureStorageBlob)
        } else if spells_word(name, &local_fs) || spells_word(name, &local) || spells_word(name, &disk) {
            Ok(StorageScheme::LocalFs)
        } else {
            Err(ErrorCode::ConfigurationError)
        }
    }

    /// The name under which the storage layer knows the back end.
    pub fn service_name(&self) -> (s: &'static str)
        ensures
            s@ == (match *self {
                StorageScheme::LocalFs => "fs"@,
                StorageScheme::S3 => "s3"@,
                StorageScheme::AzureStorageBlob => "azblob"@,
            }),
    {
        match self {
            StorageScheme::LocalFs => "fs",
            StorageScheme::S3 => "s3",
            StorageScheme::AzureStorageBlob => "azblob",
        }
    }
}

} // verus!
