use generic_upper_bound::table::BoundTable;

fn expected(width: u32) -> Vec<u64> {
    let mut entries: Vec<u64> = vec![0, 1];
    for position in 1..width {
        entries.push(0b10u64 << (position - 1));
        entries.push(0b11u64 << (position - 1));
    }
    entries.push(u64::MAX >> (64 - width));
    entries
}

#[test]
fn table_of_one_bit() {
    let table = BoundTable::generate(1);
    assert_eq!(table.entries(), &[0, 1, 1]);
}

#[test]
fn table_of_two_bits() {
    let table = BoundTable::generate(2);
    assert_eq!(table.entries(), &[0, 1, 2, 3, 3]);
}

#[test]
fn table_of_three_bits() {
    let table = BoundTable::generate(3);
    assert_eq!(table.entries(), &[0, 1, 2, 3, 4, 6, 7]);
}

#[test]
fn table_of_four_bits() {
    let table = BoundTable::generate(4);
    assert_eq!(table.entries(), &[0, 1, 2, 3, 4, 6, 8, 12, 15]);
}

#[test]
fn table_of_32_bits_starts_and_ends_as_stated() {
    let table = BoundTable::generate(32);
    let entries = table.entries();
    assert_eq!(entries.len(), 65);
    assert_eq!(&entries[..8], &[0, 1, 0b10, 0b11, 0b100, 0b110, 0b1000, 0b1100]);
    assert_eq!(entries[62], 1 << 31);
    assert_eq!(entries[63], 0b11 << 30);
    assert_eq!(entries[64], 0xffff_ffff);
}

#[test]
fn table_matches_the_enumeration_for_every_width() {
    for width in 1..=64u32 {
        let table = BoundTable::generate(width);
        assert_eq!(table.entries(), expected(width).as_slice(), "width {width}");
    }
}

#[test]
fn table_has_two_entries_per_bit_and_one_more() {
    for width in 1..=64u32 {
        let table = BoundTable::generate(width);
        assert_eq!(table.len(), 2 * width as usize + 1);
        assert_eq!(table.entries().len(), table.len());
        assert_eq!(table.width(), width);
    }
}

#[test]
fn table_begins_with_zero_and_one_and_ends_with_the_largest_word() {
    for width in 1..=64u32 {
        let table = BoundTable::generate(width);
        assert_eq!(table.get(0), Some(0));
        assert_eq!(table.get(1), Some(1));
        let largest = u64::MAX >> (64 - width);
        assert_eq!(table.get(table.len() - 1), Some(largest));
        assert_eq!(table.max(), largest);
    }
}

#[test]
fn table_is_strictly_ascending_from_three_bits_on() {
    for width in 3..=64u32 {
        let table = BoundTable::generate(width);
        let entries = table.entries();
        for index in 1..entries.len() {
            assert!(entries[index - 1] < entries[index], "width {width}, index {index}");
        }
    }
}

#[test]
fn table_never_descends_for_one_and_two_bits() {
    for width in 1..=2u32 {
        let table = BoundTable::generate(width);
        let entries = table.entries();
        for index in 1..entries.len() {
            assert!(entries[index - 1] <= entries[index]);
        }
        assert_eq!(entries[entries.len() - 2], entries[entries.len() - 1]);
    }
}

#[test]
fn inner_entries_are_two_or_three_times_a_power_of_two() {
    let table = BoundTable::generate(64);
    let entries = table.entries();
    for index in 2..entries.len() - 1 {
        let position = (index / 2) as u32;
        let factor = 2 + (index % 2) as u64;
        assert_eq!(entries[index], factor * (1u64 << (position - 1)));
    }
}

#[test]
fn entries_step_by_at_most_a_factor_of_two() {
    for width in 1..=64u32 {
        let table = BoundTable::generate(width);
        let entries = table.entries();
        for index in 1..entries.len() {
            let before = entries[index - 1] as u128;
            assert!(entries[index] as u128 <= 2 * before + 1);
        }
    }
}

#[test]
fn get_is_none_behind_the_last_entry() {
    let table = BoundTable::generate(16);
    assert_eq!(table.get(32), Some(0xffff));
    assert_eq!(table.get(33), None);
    assert_eq!(table.get(usize::MAX), None);
}

#[test]
fn get_agrees_with_entries() {
    let table = BoundTable::generate(32);
    for (index, entry) in table.entries().iter().enumerate() {
        assert_eq!(table.get(index), Some(*entry));
    }
}

#[test]
fn generation_is_repeatable() {
    for width in [1u32, 16, 32, 64] {
        let first = BoundTable::generate(width);
        let second = BoundTable::generate(width);
        assert_eq!(first.entries(), second.entries());
    }
}

#[test]
fn wider_table_keeps_all_but_the_last_entry_of_the_narrower() {
    let narrow = BoundTable::generate(32);
    let wide = BoundTable::generate(64);
    let shared = narrow.len() - 1;
    assert_eq!(shared, 64);
    assert_eq!(&narrow.entries()[..shared], &wide.entries()[..shared]);
    assert_eq!(narrow.entries()[shared], 0xffff_ffff);
    assert_eq!(wide.entries()[shared], 1 << 32);
    assert_eq!(wide.max(), u64::MAX);
}

#[test]
fn every_pair_of_widths_shares_the_narrower_prefix() {
    for narrow_width in 1..=64u32 {
        let narrow = BoundTable::generate(narrow_width);
        for wide_width in narrow_width..=64u32 {
            let wide = BoundTable::generate(wide_width);
            let shared = 2 * narrow_width as usize;
            assert_eq!(&narrow.entries()[..shared], &wide.entries()[..shared]);
        }
    }
}
