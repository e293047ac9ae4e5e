use vstd::prelude::*;

verus! {

/// The three permission letters of one `rwx` group, given its low three bits.
pub open spec fn flag_group(g: u32) -> Seq<char> {
    seq![
        if g & 4 != 0 { 'r' } else { '-' },
        if g & 2 != 0 { 'w' } else { '-' },
        if g & 1 != 0 { 'x' } else { '-' },
    ]
}

/// The nine permission letters of a mode: owner, group, others.
pub open spec fn mode_string(mode: u32) -> Seq<char> {
    flag_group((mode >> 6u32) & 7) + flag_group((mode >> 3u32) & 7) + flag_group(mode & 7)
}

/// The letters of one permission group.
pub fn format_flag_group(group: u32) -> (r: &'static str)
    requires
        group < 8,
    ensures
        r@ == flag_group(group),
{
    proof {
        assert(0u32 & 4 == 0 && 0u32 & 2 == 0 && 0u32 & 1 == 0) by (bit_vector);
        assert(1u32 & 4 == 0 && 1u32 & 2 == 0 && 1u32 & 1 == 1) by (bit_vector);
        assert(2u32 & 4 == 0 && 2u32 & 2 == 2 && 2u32 & 1 == 0) by (bit_vector);
        assert(3u32 & 4 == 0 && 3u32 & 2 == 2 && 3u32 & 1 == 1) by (bit_vector);
        assert(4u32 & 4 == 4 && 4u32 & 2 == 0 && 4u32 & 1 == 0) by (bit_vector);
        assert(5u32 & 4 == 4 && 5u32 & 2 == 0 && 5u32 & 1 == 1) by (bit_vector);
        assert(6u32 & 4 == 4 && 6u32 & 2 == 2 && 6u32 & 1 == 0) by (bit_vector);
        assert(7u32 & 4 == 4 && 7u32 & 2 == 2 && 7u32 & 1 == 1) by (bit_vector);
    }
    match group {
        0 => {
            proof { reveal_strlit("---"); }
            "---"
        },
        1 => {
            proof { reveal_strlit("--x"); }
            "--x"
        },
        2 => {
            proof { reveal_strlit("-w-"); }
            "-w-"
        },
        3 => {
            proof { reveal_strlit("-wx"); }
            "-wx"
        },
        4 => {
            proof { reveal_strlit("r--"); }
            "r--"
        },
        5 => {
            proof { reveal_strlit("r-x"); }
            "r-x"
        },
        6 => {
            proof { reveal_strlit("rw-"); }
            "rw-"
        },
        _ => {
            proof { reveal_strlit("rwx"); }
            "rwx"
        },
    }
}

/// The `rwxrwxrwx` form of the permission bits of `mode`.
pub fn decode_mod(mode: u32) -> (r: String)
    ensures
        r@ == mode_string(mode),
{
    let mut res = String::new();
    let offsets: [u32; 3] = [6, 3, 0];
    let mut i: usize = 0;
    while i < 3
        invariant
            i <= 3,
            offsets@ == seq![6u32, 3u32, 0u32],
            res@ == (if i == 0 {
                Seq::<char>::empty()
            } else if i == 1 {
                flag_group((mode >> 6u32) & 7)
            } else if i == 2 {
                flag_group((mode >> 6u32) & 7) + flag_group((mode >> 3u32) & 7)
            } else {
                mode_string(mode)
            }),
        decreases 3 - i,
    {
        let offset = offsets[i];
        let g = (mode >> offset) & 7;
        assert(g < 8) by (bit_vector)
            requires
                g == (mode >> offset) & 7,
        ;
        res.append(format_flag_group(g));
        proof {
            assert(mode & 7 == (mode >> 0u32) & 7) by (bit_vector);
        }
        i = i + 1;
    }
    res
}

/// The permission bits that a file created with `mode` gets under `umask`:
/// the bits of `mode` that the mask leaves set.
pub fn set_umasked_mode(mode: u32, umask: u32) -> (r: u32)
    ensures
        r == mode & !umask,
{
    mode & !umask
}

} // verus!
