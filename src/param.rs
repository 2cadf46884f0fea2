use crate::bytes::{le_u16_at, le_u32_at, read_u16_le, read_u32_le};
use crate::RootError;
use vstd::arithmetic::power2::{lemma2_to64, lemma_pow2_adds, lemma_pow2_strictly_increases, pow2};
use vstd::bits::lemma_u64_shl_is_mul;
use vstd::prelude::*;

verus! {

/// The largest cluster an exFAT volume may have: 32 MiB.
pub const MAX_CLUSTER_SIZE: u64 = 33554432;

/// The VolumeFlags field of the boot sector.
#[derive(Clone, Copy, Debug, PartialEq, Eq, Structural)]
pub struct VolumeFlags(pub u16);

impl VolumeFlags {
    /// The index of the FAT in use: bit 0.
    pub fn active_fat(self) -> (r: usize)
        ensures
            r == self.0 % 2,
    {
        (self.0 % 2) as usize
    }

    /// Whether the volume was not cleanly unmounted: bit 1.
    pub fn volume_dirty(self) -> (r: bool)
        ensures
            r == ((self.0 / 2) % 2 == 1),
    {
        (self.0 / 2) % 2 == 1
    }
}

/// Geometry of a volume, from its main boot sector.
#[derive(Clone, Copy, Debug, PartialEq, Eq, Structural)]
pub struct Params {
    /// First sector of the first FAT.
    pub fat_offset: u64,
    /// Sectors in each FAT.
    pub fat_length: u64,
    /// First sector of the cluster heap.
    pub cluster_heap_offset: u64,
    /// Clusters in the heap; they are numbered from 2.
    pub cluster_count: u32,
    pub first_cluster_of_root_directory: u32,
    pub volume_flags: VolumeFlags,
    pub bytes_per_sector: u64,
    pub sectors_per_cluster: u64,
    pub number_of_fats: u8,
}

/// The boot sector starts with the file system name "EXFAT   " at byte 3,
/// followed by 53 zero bytes.
pub open spec fn is_exfat_signature(b: Seq<u8>) -> bool {
    &&& b.subrange(3, 11) == seq![0x45u8, 0x58, 0x46, 0x41, 0x54, 0x20, 0x20, 0x20]
    &&& forall|i: int| 11 <= i < 64 ==> b[i] == 0
}

pub open spec fn valid_bytes_per_sector_shift(b: Seq<u8>) -> bool {
    9 <= b[108] <= 12
}

pub open spec fn valid_sectors_per_cluster_shift(b: Seq<u8>) -> bool {
    b[109] + b[108] <= 25
}

/// NumberOfFats is 1 or 2, and the active FAT (bit 0 of VolumeFlags at
/// byte 106) is one of them.
pub open spec fn valid_number_of_fats(b: Seq<u8>) -> bool {
    &&& b[110] == 1 || b[110] == 2
    &&& !(b[106] % 2 == 1 && b[110] == 1)
}

/// The geometry that a valid boot sector describes.
pub open spec fn boot_params(b: Seq<u8>) -> Params {
    Params {
        fat_offset: le_u32_at(b, 80) as u64,
        fat_length: le_u32_at(b, 84) as u64,
        cluster_heap_offset: le_u32_at(b, 88) as u64,
        cluster_count: le_u32_at(b, 92) as u32,
        first_cluster_of_root_directory: le_u32_at(b, 96) as u32,
        volume_flags: VolumeFlags(le_u16_at(b, 106) as u16),
        bytes_per_sector: pow2(b[108] as nat) as u64,
        sectors_per_cluster: pow2(b[109] as nat) as u64,
        number_of_fats: b[110],
    }
}

impl Params {
    pub open spec fn wf(&self) -> bool {
        &&& 512 <= self.bytes_per_sector <= 4096
        &&& 1 <= self.sectors_per_cluster
        &&& self.bytes_per_sector * self.sectors_per_cluster <= MAX_CLUSTER_SIZE
        &&& self.number_of_fats == 1 || self.number_of_fats == 2
    }

    pub open spec fn spec_cluster_size(&self) -> int {
        self.bytes_per_sector * self.sectors_per_cluster
    }

    /// Byte offset of cluster `c` in the partition; none for a cluster
    /// outside the heap or an offset past 64 bits.
    pub open spec fn spec_cluster_offset(&self, c: int) -> Option<int> {
        if c < 2 || c > self.cluster_count + 1 {
            None
        } else {
            let sector = self.cluster_heap_offset + (c - 2) * self.sectors_per_cluster;
            if sector > u64::MAX || sector * self.bytes_per_sector > u64::MAX {
                None
            } else {
                Some(sector * self.bytes_per_sector)
            }
        }
    }

    /// Parses the main boot sector.
    pub fn from_boot<E>(boot: &[u8]) -> (r: Result<Params, RootError<E>>)
        requires
            boot@.len() == 512,
        ensures
            match r {
                Ok(p) => {
                    &&& is_exfat_signature(boot@)
                    &&& valid_bytes_per_sector_shift(boot@)
                    &&& valid_sectors_per_cluster_shift(boot@)
                    &&& valid_number_of_fats(boot@)
                    &&& p == boot_params(boot@)
                    &&& p.wf()
                },
                Err(RootError::NotExFat) => !is_exfat_signature(boot@),
                Err(RootError::InvalidBytesPerSectorShift) => is_exfat_signature(boot@)
                    && !valid_bytes_per_sector_shift(boot@),
                Err(RootError::InvalidSectorsPerClusterShift) => is_exfat_signature(boot@)
                    && valid_bytes_per_sector_shift(boot@) && !valid_sectors_per_cluster_shift(
                    boot@,
                ),
                Err(RootError::InvalidNumberOfFats) => is_exfat_signature(boot@)
                    && valid_bytes_per_sector_shift(boot@) && valid_sectors_per_cluster_shift(boot@)
                    && !valid_number_of_fats(boot@),
                Err(_) => false,
            },
    {
        // File system name.
        if boot[3] != 0x45 || boot[4] != 0x58 || boot[5] != 0x46 || boot[6] != 0x41 || boot[7]
            != 0x54 || boot[8] != 0x20 || boot[9] != 0x20 || boot[10] != 0x20 {
            proof {
                let sig = seq![0x45u8, 0x58, 0x46, 0x41, 0x54, 0x20, 0x20, 0x20];
                assert(exists|k: int| 0 <= k < 8 && boot@.subrange(3, 11)[k] != sig[k]);
            }
            return Err(RootError::NotExFat);
        }
        let mut i: usize = 11;
        assert(boot@.subrange(3, 11) =~= seq![0x45u8, 0x58, 0x46, 0x41, 0x54, 0x20, 0x20, 0x20]);
        while i < 64
            invariant
                11 <= i <= 64,
                boot@.len() == 512,
                forall|j: int| 11 <= j < i ==> boot@[j] == 0,
            decreases 64 - i,
        {
            if boot[i] != 0 {
                return Err(RootError::NotExFat);
            }
            i += 1;
        }

        // Geometry.
        let bps_shift = boot[108];
        if bps_shift < 9 || bps_shift > 12 {
            return Err(RootError::InvalidBytesPerSectorShift);
        }
        let spc_shift = boot[109];
        if spc_shift > 25 - bps_shift {
            return Err(RootError::InvalidSectorsPerClusterShift);
        }
        let number_of_fats = boot[110];
        let volume_flags = VolumeFlags(read_u16_le(boot, 106));
        if number_of_fats != 1 && number_of_fats != 2 {
            return Err(RootError::InvalidNumberOfFats);
        }
        proof {
            assert(volume_flags.0 % 2 == boot@[106] % 2);
        }
        if volume_flags.active_fat() == 1 && number_of_fats == 1 {
            return Err(RootError::InvalidNumberOfFats);
        }
        proof {
            lemma2_to64();
            lemma_u64_shl_is_mul(1, bps_shift as u64);
            lemma_u64_shl_is_mul(1, spc_shift as u64);
            lemma_pow2_adds(bps_shift as nat, spc_shift as nat);
            if (bps_shift + spc_shift) < 25 {
                lemma_pow2_strictly_increases((bps_shift + spc_shift) as nat, 25);
            }
        }
        let bytes_per_sector = 1u64 << (bps_shift as u64);
        let sectors_per_cluster = 1u64 << (spc_shift as u64);
        let p = Params {
            fat_offset: read_u32_le(boot, 80) as u64,
            fat_length: read_u32_le(boot, 84) as u64,
            cluster_heap_offset: read_u32_le(boot, 88) as u64,
            cluster_count: read_u32_le(boot, 92),
            first_cluster_of_root_directory: read_u32_le(boot, 96),
            volume_flags,
            bytes_per_sector,
            sectors_per_cluster,
            number_of_fats,
        };
        Ok(p)
    }

    /// Bytes in a cluster.
    pub fn cluster_size(&self) -> (r: u64)
        requires
            self.wf(),
        ensures
            r == self.spec_cluster_size(),
            512 <= r <= MAX_CLUSTER_SIZE,
    {
        proof {
            vstd::arithmetic::mul::lemma_mul_increases(self.sectors_per_cluster as int, self.bytes_per_sector as int);
        }
        self.bytes_per_sector * self.sectors_per_cluster
    }

    /// Byte offset of cluster `c` in the partition.
    pub fn cluster_offset(&self, c: usize) -> (r: Option<u64>)
        requires
            self.wf(),
        ensures
            match self.spec_cluster_offset(c as int) {
                Some(o) => r == Some(o as u64),
                None => r is None,
            },
    {
        if c < 2 || c as u64 > self.cluster_count as u64 + 1 {
            return None;
        }
        let index = (c - 2) as u64;
        let sectors = match index.checked_mul(self.sectors_per_cluster) {
            Some(v) => v,
            None => return None,
        };
        let sector = match self.cluster_heap_offset.checked_add(sectors) {
            Some(v) => v,
            None => return None,
        };
        match sector.checked_mul(self.bytes_per_sector) {
            Some(v) => Some(v),
            None => None,
        }
    }
}

} // verus!
