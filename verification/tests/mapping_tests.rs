use riblt::{RandomMapping, SimpleSymbol};

#[test]
fn test_mapping() {
    let mut rm = RandomMapping::new(&SimpleSymbol { value: 1 });

    for _ in 0..10 {
        let index = rm.next_index();
        println!("{}", index);
    }
    let mut rm = RandomMapping::new(&SimpleSymbol { value: 2 });
    for _ in 0..10 {
        let index = rm.next_index();
        println!("{}", index);
    }

    let mut rm = RandomMapping::new(&SimpleSymbol { value: 2 });

    // the indexes that land in a range are helpful if we are computing the
    // coded symbols in a block
    let mut below_100: Vec<u64> = Vec::new();
    loop {
        let x = rm.next_index();
        if x > 100 {
            break;
        }
        if x > 30 {
            below_100.push(x);
        }
    }
    println!("{:?}", below_100);
}
