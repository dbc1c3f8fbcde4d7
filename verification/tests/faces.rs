use copernica::address::hash_bytes;
use copernica::faces::{Data, Interest, SDR_BITS};
use copernica::sparse_distributed_routing::{Overlap, SparseDistributedRouting};

fn positions(component: &str) -> Vec<usize> {
    let hash = hash_bytes(component.as_bytes());
    vec![
        (hash & 0x7ff) as usize,
        ((hash >> 16) & 0x7ff) as usize,
        ((hash >> 32) & 0x7ff) as usize,
        ((hash >> 48) & 0x7ff) as usize,
    ]
}

#[test]
fn index_has_a_row_for_every_component() {
    let interest = Interest::new("interested/in/world/affairs".to_string());
    assert_eq!(interest.name(), "interested/in/world/affairs");
    assert_eq!(
        interest.index(),
        vec![positions("interested"), positions("in"), positions("world"), positions("affairs")]
    );
}

#[test]
fn positions_lie_within_the_bit_vector() {
    let interest = Interest::new("a/b/c/d/e/f/g/h/i/j/k/l/m/n/o/p".to_string());
    assert_eq!(interest.index().len(), 16);
    for row in interest.index() {
        assert_eq!(row.len(), 4);
        for position in row {
            assert!(position < SDR_BITS);
        }
    }
}

#[test]
fn positions_of_the_empty_component_come_from_the_offset_basis() {
    let basis: u64 = 0xcbf2_9ce4_8422_2325;
    assert_eq!(
        positions(""),
        vec![
            (basis & 0x7ff) as usize,
            ((basis >> 16) & 0x7ff) as usize,
            ((basis >> 32) & 0x7ff) as usize,
            ((basis >> 48) & 0x7ff) as usize
        ]
    );
    assert_eq!(positions(""), vec![0x325, 0x422, 0x4e4, 0x3f2]);
}

#[test]
fn separators_at_the_ends_make_empty_components() {
    assert_eq!(Interest::new(String::new()).index(), vec![positions("")]);
    assert_eq!(Interest::new("/".to_string()).index(), vec![positions(""), positions("")]);
    assert_eq!(
        Interest::new("/a//b/".to_string()).index(),
        vec![positions(""), positions("a"), positions(""), positions("b"), positions("")]
    );
}

#[test]
fn clone_of_an_interest_is_equal() {
    let interest = Interest::new("interested/in/world/affairs".to_string());
    assert_eq!(interest.clone(), interest);
}

#[test]
fn data_keeps_name_and_content() {
    let data = Data::new("world/affairs".to_string(), vec![1, 2, 3]);
    assert_eq!(data.name(), "world/affairs");
    assert_eq!(data.content(), &vec![1, 2, 3]);
}

#[test]
fn contains_return_100_percent() {
    let interest = Interest::new("interested/in/world/affairs".to_string());
    let mut sdr = SparseDistributedRouting::new();
    sdr.insert(interest.clone());
    let seen = sdr.overlap(&interest);
    assert_eq!(seen, Overlap { hits: 16, total: 16 });
    assert_eq!(((seen.hits as f32 / seen.total as f32) * 100f32) as u32, 100);
}

#[test]
fn fresh_record_has_seen_nothing() {
    let sdr = SparseDistributedRouting::new();
    let interest = Interest::new("interested/in/world/affairs".to_string());
    assert_eq!(sdr.overlap(&interest), Overlap { hits: 0, total: 16 });
    assert_eq!(sdr.read(&interest), vec![false; 16]);
}

#[test]
fn shared_components_are_seen() {
    let mut sdr = SparseDistributedRouting::new();
    sdr.insert(Interest::new("interested/in/world/affairs".to_string()));
    let cousin = Interest::new("interested/in/local/affairs".to_string());
    let seen = sdr.overlap(&cousin);
    assert_eq!(seen.total, 16);
    assert!(seen.hits >= 12);
    let readings = sdr.read(&cousin);
    assert_eq!(&readings[0..8], &[true; 8]);
    assert_eq!(&readings[12..16], &[true; 4]);
    assert_eq!(seen.hits, readings.iter().filter(|bit| **bit).count());
}

#[test]
fn recorded_interest_stays_seen_after_later_records() {
    let first = Interest::new("interested/in/world/affairs".to_string());
    let mut sdr = SparseDistributedRouting::new();
    sdr.insert(first.clone());
    sdr.insert(Interest::new("something/else".to_string()));
    sdr.insert(Interest::new("and/more".to_string()));
    assert_eq!(sdr.overlap(&first), Overlap { hits: 16, total: 16 });
}

#[test]
fn read_gives_the_bit_at_every_position_in_order() {
    let mut sdr = SparseDistributedRouting::new();
    sdr.insert(Interest::new("b".to_string()));
    let probe = Interest::new("a/b".to_string());
    let readings = sdr.read(&probe);
    let seen_from_a: Vec<bool> =
        positions("a").iter().map(|p| positions("b").contains(p)).collect();
    assert_eq!(&readings[0..4], &seen_from_a[..]);
    assert_eq!(&readings[4..8], &[true; 4]);
}

#[test]
fn snapshot_shows_the_set_bits() {
    let mut sdr = SparseDistributedRouting::new();
    assert_eq!(sdr.snapshot(), vec![false; 2048]);
    sdr.insert(Interest::new("a".to_string()));
    let bits = sdr.snapshot();
    assert_eq!(bits.len(), 2048);
    for position in 0..2048 {
        assert_eq!(bits[position], positions("a").contains(&position));
    }
}

#[test]
fn record_recalls_the_index_of_a_name() {
    let mut sdr = SparseDistributedRouting::new();
    assert_eq!(sdr.recall("a/b"), None);
    sdr.insert(Interest::new("a/b".to_string()));
    assert_eq!(sdr.recall("a/b"), Some(vec![positions("a"), positions("b")]));
    assert_eq!(sdr.recall("a"), None);
    sdr.insert(Interest::new("a/b".to_string()));
    assert_eq!(sdr.recall("a/b"), Some(vec![positions("a"), positions("b")]));
}

#[test]
fn record_keeps_the_thousand_names_seen_last() {
    let mut sdr = SparseDistributedRouting::new();
    for n in 0..1000 {
        sdr.insert(Interest::new(format!("name/{}", n)));
    }
    assert!(sdr.recall("name/0").is_some());
    assert!(sdr.recall("name/999").is_some());
    sdr.insert(Interest::new("name/1000".to_string()));
    assert_eq!(sdr.recall("name/0"), None);
    assert!(sdr.recall("name/1").is_some());
    assert!(sdr.recall("name/1000").is_some());
}

#[test]
fn seeing_a_name_again_makes_it_the_one_seen_last() {
    let mut sdr = SparseDistributedRouting::new();
    for n in 0..1000 {
        sdr.insert(Interest::new(format!("name/{}", n)));
    }
    sdr.insert(Interest::new("name/0".to_string()));
    sdr.insert(Interest::new("name/1000".to_string()));
    assert!(sdr.recall("name/0").is_some());
    assert_eq!(sdr.recall("name/1"), None);
    assert!(sdr.recall("name/2").is_some());
}

#[test]
fn recalling_a_name_does_not_make_it_the_one_seen_last() {
    let mut sdr = SparseDistributedRouting::new();
    for n in 0..1000 {
        sdr.insert(Interest::new(format!("name/{}", n)));
    }
    assert!(sdr.recall("name/0").is_some());
    sdr.insert(Interest::new("name/1000".to_string()));
    assert_eq!(sdr.recall("name/0"), None);
}
