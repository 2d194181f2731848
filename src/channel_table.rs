//! The hardware channel table: part names to channel indices.
use vstd::prelude::*;

verus! {

/// The fixed mapping from part names to hardware channel indices. Fibre parts
/// and LED strips are numbered separately; the order of channels is the order
/// of the wire formats.
pub struct ChannelTable {
    entries: Vec<(String, i32)>,
}

impl View for ChannelTable {
    type V = Seq<(Seq<char>, i32)>;

    closed spec fn view(&self) -> Seq<(Seq<char>, i32)> {
        Seq::new(self.entries@.len(), |i: int| (self.entries@[i].0@, self.entries@[i].1))
    }
}

/// The channel of the first entry named `name`.
pub open spec fn lookup_channel(entries: Seq<(Seq<char>, i32)>, name: Seq<char>) -> Option<i32>
    decreases entries.len(),
{
    if entries.len() == 0 {
        None
    } else if entries[0].0 == name {
        Some(entries[0].1)
    } else {
        lookup_channel(entries.drop_first(), name)
    }
}

/// The channel table of the current costume hardware.
pub open spec fn hardware_channels() -> Seq<(Seq<char>, i32)> {
    seq![
        ("cloak_out"@, 0i32),
        ("cloak_arm_left"@, 1i32),
        ("arm_left_out"@, 2i32),
        ("arm_left_in"@, 3i32),
        ("arm_cuff_left"@, 4i32),
        ("shirt_left_out"@, 5i32),
        ("shirt_left_mid"@, 6i32),
        ("shirt_left_in"@, 7i32),
        ("belt_left"@, 8i32),
        ("cloak_left_in"@, 9i32),
        ("cross"@, 10i32),
        ("cloak_arm_right"@, 11i32),
        ("arm_right_out"@, 12i32),
        ("arm_right_in"@, 13i32),
        ("arm_cuff_right"@, 14i32),
        ("shirt_right_out"@, 15i32),
        ("shirt_right_mid"@, 16i32),
        ("shirt_right_in"@, 17i32),
        ("belt_right"@, 18i32),
        ("cloak_right_in"@, 19i32),
        ("skirt_bottom_bottom"@, 20i32),
        ("skirt_left_out"@, 21i32),
        ("skirt_left_mid"@, 22i32),
        ("skirt_left_in"@, 23i32),
        ("leg_left_out"@, 24i32),
        ("leg_left_in"@, 25i32),
        ("shoes_left_bottom"@, 26i32),
        ("shoes_left_ankle"@, 27i32),
        ("shoes_left_front"@, 28i32),
        ("skirt_bottom_top"@, 30i32),
        ("skirt_right_out"@, 31i32),
        ("skirt_right_mid"@, 32i32),
        ("skirt_right_in"@, 33i32),
        ("leg_right_out"@, 34i32),
        ("leg_right_in"@, 35i32),
        ("shoes_right_bottom"@, 36i32),
        ("shoes_right_ankle"@, 37i32),
        ("shoes_right_front"@, 38i32),
        ("mask_LED"@, 0i32),
        ("glove_left_LED"@, 1i32),
        ("glove_right_LED"@, 2i32),
        ("shoes_left_LED"@, 3i32),
        ("hat_ring_LED"@, 4i32),
        ("hat_main_LED"@, 5i32),
    ]
}

fn add_entry(entries: &mut Vec<(String, i32)>, name: &str, id: i32)
    ensures
        final(entries)@.len() == old(entries)@.len() + 1,
        forall|i: int| 0 <= i < old(entries)@.len() ==> #[trigger] final(entries)@[i] == old(entries)@[i],
        final(entries)@.last().0@ == name@,
        final(entries)@.last().1 == id,
{
    entries.push((name.to_owned(), id));
}

impl ChannelTable {
    /// Builds the hardware channel table.
    #[verifier::rlimit(50)]
    pub fn init() -> (r: ChannelTable)
        ensures
            r@ == hardware_channels(),
    {
        let mut entries: Vec<(String, i32)> = Vec::new();
        add_entry(&mut entries, "cloak_out", 0);
        add_entry(&mut entries, "cloak_arm_left", 1);
        add_entry(&mut entries, "arm_left_out", 2);
        add_entry(&mut entries, "arm_left_in", 3);
        add_entry(&mut entries, "arm_cuff_left", 4);
        add_entry(&mut entries, "shirt_left_out", 5);
        add_entry(&mut entries, "shirt_left_mid", 6);
        add_entry(&mut entries, "shirt_left_in", 7);
        add_entry(&mut entries, "belt_left", 8);
        add_entry(&mut entries, "cloak_left_in", 9);
        add_entry(&mut entries, "cross", 10);
        add_entry(&mut entries, "cloak_arm_right", 11);
        add_entry(&mut entries, "arm_right_out", 12);
        add_entry(&mut entries, "arm_right_in", 13);
        add_entry(&mut entries, "arm_cuff_right", 14);
        add_entry(&mut entries, "shirt_right_out", 15);
        add_entry(&mut entries, "shirt_right_mid", 16);
        add_entry(&mut entries, "shirt_right_in", 17);
        add_entry(&mut entries, "belt_right", 18);
        add_entry(&mut entries, "cloak_right_in", 19);
        add_entry(&mut entries, "skirt_bottom_bottom", 20);
        add_entry(&mut entries, "skirt_left_out", 21);
        add_entry(&mut entries, "skirt_left_mid", 22);
        add_entry(&mut entries, "skirt_left_in", 23);
        add_entry(&mut entries, "leg_left_out", 24);
        add_entry(&mut entries, "leg_left_in", 25);
        add_entry(&mut entries, "shoes_left_bottom", 26);
        add_entry(&mut entries, "shoes_left_ankle", 27);
        add_entry(&mut entries, "shoes_left_front", 28);
        add_entry(&mut entries, "skirt_bottom_top", 30);
        add_entry(&mut entries, "skirt_right_out", 31);
        add_entry(&mut entries, "skirt_right_mid", 32);
        add_entry(&mut entries, "skirt_right_in", 33);
        add_entry(&mut entries, "leg_right_out", 34);
        add_entry(&mut entries, "leg_right_in", 35);
        add_entry(&mut entries, "shoes_right_bottom", 36);
        add_entry(&mut entries, "shoes_right_ankle", 37);
        add_entry(&mut entries, "shoes_right_front", 38);
        add_entry(&mut entries, "mask_LED", 0);
        add_entry(&mut entries, "glove_left_LED", 1);
        add_entry(&mut entries, "glove_right_LED", 2);
        add_entry(&mut entries, "shoes_left_LED", 3);
        add_entry(&mut entries, "hat_ring_LED", 4);
        add_entry(&mut entries, "hat_main_LED", 5);
        let r = ChannelTable { entries };
        assert(r@ =~= hardware_channels());
        r
    }

    /// The channel of the part named `name`, if the table has one.
    pub fn get_part_id(&self, name: &String) -> (r: Option<i32>)
        ensures
            r == lookup_channel(self@, name@),
    {
        let mut i: usize = 0;
        assert(self@.subrange(0, self@.len() as int) =~= self@);
        while i < self.entries.len()
            invariant
                i <= self@.len(),
                lookup_channel(self@, name@) == lookup_channel(self@.subrange(i as int, self@.len() as int), name@),
            decreases self@.len() - i,
        {
            let ghost rest = self@.subrange(i as int, self@.len() as int);
            assert(rest.drop_first() =~= self@.subrange(i + 1, self@.len() as int));
            assert(rest[0] == self@[i as int]);
            if self.entries[i].0 == *name {
                return Some(self.entries[i].1);
            }
            i = i + 1;
        }
        None
    }
}

} // verus!
