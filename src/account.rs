use vstd::prelude::*;

verus! {

/// A 32-byte public key, as account addresses and record fields hold it.
pub type Key = [u8; 32];

/// One account as an operation sees it: its address, the program that owns
/// it, the flags set by the runtime, and its data buffer.
#[derive(Debug, Clone)]
pub struct Account {
    pub key: Key,
    pub owner: Key,
    pub is_signer: bool,
    pub is_writable: bool,
    pub is_executable: bool,
    pub data: Vec<u8>,
}

/// An account as a mathematical value.
pub ghost struct AccountModel {
    pub key: Seq<u8>,
    pub owner: Seq<u8>,
    pub is_signer: bool,
    pub is_writable: bool,
    pub is_executable: bool,
    pub data: Seq<u8>,
}

impl AccountModel {
    /// The same account with other data.
    pub open spec fn with_data(self, data: Seq<u8>) -> AccountModel {
        AccountModel { data, ..self }
    }
}

impl View for Account {
    type V = AccountModel;

    open spec fn view(&self) -> AccountModel {
        AccountModel {
            key: self.key@,
            owner: self.owner@,
            is_signer: self.is_signer,
            is_writable: self.is_writable,
            is_executable: self.is_executable,
            data: self.data@,
        }
    }
}

/// Compares two keys byte by byte.
pub fn keys_equal(a: &Key, b: &Key) -> (r: bool)
    ensures
        r == (a@ == b@),
{
    let mut i: usize = 0;
    while i < 32
        invariant
            0 <= i <= 32,
            a@.len() == 32,
            b@.len() == 32,
            forall|j: int| 0 <= j < i ==> a@[j] == b@[j],
        decreases 32 - i,
    {
        if a[i] != b[i] {
            return false;
        }
        i = i + 1;
    }
    assert(a@ =~= b@);
    true
}

/// The bytes of a buffer after `bytes` were written into it: a buffer that is
/// too short is replaced by exactly `bytes`; a longer one keeps its tail.
pub open spec fn written(buffer: Seq<u8>, bytes: Seq<u8>) -> Seq<u8> {
    if bytes.len() > buffer.len() {
        bytes
    } else {
        bytes + buffer.subrange(bytes.len() as int, buffer.len() as int)
    }
}

/// Writes a record's bytes at the start of an account's buffer, growing the
/// buffer to the exact length only where it is shorter.
pub fn write_record(data: &mut Vec<u8>, bytes: &Vec<u8>)
    ensures
        final(data)@ == written(old(data)@, bytes@),
{
    if bytes.len() > data.len() {
        *data = bytes.clone();
        assert(data@ =~= bytes@);
    } else {
        let ghost tail = old(data)@.subrange(bytes@.len() as int, old(data)@.len() as int);
        let mut i: usize = 0;
        while i < bytes.len()
            invariant
                0 <= i <= bytes@.len(),
                bytes@.len() <= old(data)@.len(),
                data@.len() == old(data)@.len(),
                forall|j: int| 0 <= j < i ==> data@[j] == bytes@[j],
                forall|j: int| bytes@.len() <= j < data@.len() ==> data@[j] == old(data)@[j],
            decreases bytes@.len() - i,
        {
            data.set(i, bytes[i]);
            i = i + 1;
        }
        assert(data@ =~= bytes@ + tail);
    }
}

} // verus!
