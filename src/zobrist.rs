use vstd::prelude::*;
use crate::codec::{Piece, Square, piece_index};

verus! {

/// Relies on rand::random: a fresh `u64` from the thread-local generator,
/// about which nothing is promised.
#[verifier::external_body]
fn random_key() -> u64 {
    rand::random::<u64>()
}

/// The keys of the running hash: one per (square, piece), one for the side
/// to move, sixteen indexed by a castling-right bit, one per en-passant square.
pub struct HashKeys {
    pub piece_keys: Vec<u64>,
    pub side_key: u64,
    pub castling_keys: Vec<u64>,
    pub en_passant_keys: Vec<u64>,
}

impl HashKeys {
    pub open spec fn wf(&self) -> bool {
        &&& self.piece_keys@.len() == 64 * 12
        &&& self.castling_keys@.len() == 16
        &&& self.en_passant_keys@.len() == 64
    }

    /// The key of piece index `p` on square `sq`.
    pub open spec fn piece_key(&self, p: int, sq: int) -> u64 {
        self.piece_keys@[sq * 12 + p]
    }

    pub open spec fn castling_key(&self, r: int) -> u64 {
        self.castling_keys@[r]
    }

    pub open spec fn en_passant_key(&self, sq: int) -> u64 {
        self.en_passant_keys@[sq]
    }

    /// Keys drawn at random.
    pub fn random() -> (r: HashKeys)
        ensures
            r.wf(),
    {
        let mut piece_keys: Vec<u64> = Vec::new();
        let mut i: usize = 0;
        while i < 64 * 12
            invariant
                i <= 64 * 12,
                piece_keys@.len() == i,
            decreases 64 * 12 - i,
        {
            piece_keys.push(random_key());
            i = i + 1;
        }
        let side_key = random_key();
        let mut castling_keys: Vec<u64> = Vec::new();
        let mut i: usize = 0;
        while i < 16
            invariant
                i <= 16,
                castling_keys@.len() == i,
            decreases 16 - i,
        {
            castling_keys.push(random_key());
            i = i + 1;
        }
        let mut en_passant_keys: Vec<u64> = Vec::new();
        let mut i: usize = 0;
        while i < 64
            invariant
                i <= 64,
                en_passant_keys@.len() == i,
            decreases 64 - i,
        {
            en_passant_keys.push(random_key());
            i = i + 1;
        }
        HashKeys { piece_keys, side_key, castling_keys, en_passant_keys }
    }

    /// Keys given by the caller; `None` when a table has the wrong length.
    pub fn from_parts(
        piece_keys: Vec<u64>,
        side_key: u64,
        castling_keys: Vec<u64>,
        en_passant_keys: Vec<u64>,
    ) -> (r: Option<HashKeys>)
        ensures
            r.is_some() <==> (piece_keys@.len() == 64 * 12 && castling_keys@.len() == 16
                && en_passant_keys@.len() == 64),
            r.is_some() ==> {
                let k = r.unwrap();
                &&& k.wf()
                &&& k.piece_keys@ == piece_keys@
                &&& k.side_key == side_key
                &&& k.castling_keys@ == castling_keys@
                &&& k.en_passant_keys@ == en_passant_keys@
            },
    {
        if piece_keys.len() == 64 * 12 && castling_keys.len() == 16 && en_passant_keys.len() == 64 {
            Some(HashKeys { piece_keys, side_key, castling_keys, en_passant_keys })
        } else {
            None
        }
    }

    pub fn piece_key_of(&self, piece: Piece, sq: Square) -> (r: u64)
        requires
            self.wf(),
            piece_index(piece) < 12,
            sq < 64,
        ensures
            r == self.piece_key(piece_index(piece) as int, sq as int),
    {
        self.piece_keys[sq * 12 + piece.index()]
    }
}

/// A running hash, updated by toggling keys in and out.
#[derive(Clone, Copy, PartialEq, Eq, Structural, Debug)]
pub struct ZobristHash {
    pub key: u64,
}

impl ZobristHash {
    /// Toggles the key of `piece` on `sq`.
    pub fn hash_piece(&mut self, keys: &HashKeys, piece: Piece, sq: Square)
        requires
            keys.wf(),
            piece_index(piece) < 12,
            sq < 64,
        ensures
            final(self).key == old(self).key ^ keys.piece_key(piece_index(piece) as int, sq as int),
    {
        self.key = self.key ^ keys.piece_key_of(piece, sq);
    }

    /// Toggles the key of the castling right `castling_rights`.
    pub fn hash_cast(&mut self, keys: &HashKeys, castling_rights: u8)
        requires
            keys.wf(),
            castling_rights < 16,
        ensures
            final(self).key == old(self).key ^ keys.castling_key(castling_rights as int),
    {
        self.key = self.key ^ keys.castling_keys[castling_rights as usize];
    }

    /// Toggles the side key.
    pub fn hash_side(&mut self, keys: &HashKeys)
        ensures
            final(self).key == old(self).key ^ keys.side_key,
    {
        self.key = self.key ^ keys.side_key;
    }

    /// Toggles the key of the en-passant square `sq`.
    pub fn hash_en_passant(&mut self, keys: &HashKeys, sq: Square)
        requires
            keys.wf(),
            sq < 64,
        ensures
            final(self).key == old(self).key ^ keys.en_passant_key(sq as int),
    {
        self.key = self.key ^ keys.en_passant_keys[sq];
    }
}

} // verus!
