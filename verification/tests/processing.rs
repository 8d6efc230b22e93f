use gfwx::processing::double_overlapping_chunks_iterator::{
    DoubleOverlappingChunks, DoubleOverlappingChunksIterator,
};
use gfwx::processing::image::Image;
use gfwx::processing::overlapping_chunks_iterator::OverlappingChunksIterator;
use gfwx::processing::variable_chunks_iterator::VariableChunksIterator;

/// The items of `v` in the range `r`.
fn at<T>(v: &[T], r: (usize, usize)) -> &[T] {
    &v[r.0..r.1]
}

#[test]
fn test_not_enough_chunks() {
    let mut v = vec![1u8, 2];
    let mut it = DoubleOverlappingChunksIterator::from_slice(&v, 2);

    match it.next() {
        Some(_) => {
            panic!("Should not generate elements!");
        }
        None => {}
    };
}

#[test]
fn test_minimal_chunks() {
    let mut v = vec![1u8, 2, 3];
    let mut it = DoubleOverlappingChunksIterator::from_slice(&v, 2);

    match it.next() {
        Some(DoubleOverlappingChunks {
            prev_left,
            left,
            middle,
            right,
            next_right,
        }) => {
            assert_eq!(at(&v, prev_left), &[]);
            assert_eq!(at(&v, left), &[1u8, 2]);
            assert_eq!(at(&v, middle), &[3u8]);
            assert_eq!(at(&v, right), &[]);
            assert_eq!(at(&v, next_right), &[]);
        }
        None => {
            panic!("Should generate elements!");
        }
    };

    assert!(it.next().is_none());
}

#[test]
fn test_no_neighbour_chunks() {
    let mut v = vec![1u8, 2, 3];
    let mut it = DoubleOverlappingChunksIterator::from_slice(&v, 1);

    match it.next() {
        Some(DoubleOverlappingChunks {
            prev_left,
            left,
            middle,
            right,
            next_right,
        }) => {
            assert_eq!(at(&v, prev_left), &[]);
            assert_eq!(at(&v, left), &[1u8]);
            assert_eq!(at(&v, middle), &[2u8]);
            assert_eq!(at(&v, right), &[3u8]);
            assert_eq!(at(&v, next_right), &[]);
        }
        None => {
            panic!("Should generate elements!");
        }
    };

    assert!(it.next().is_none());
}

#[test]
fn test_two_iterations() {
    let mut v = vec![1u8, 2, 3, 4, 5];
    let mut it = DoubleOverlappingChunksIterator::from_slice(&v, 1);

    match it.next() {
        Some(DoubleOverlappingChunks {
            prev_left,
            left,
            middle,
            right,
            next_right,
        }) => {
            assert_eq!(at(&v, prev_left), &[]);
            assert_eq!(at(&v, left), &[1u8]);
            assert_eq!(at(&v, middle), &[2u8]);
            assert_eq!(at(&v, right), &[3u8]);
            assert_eq!(at(&v, next_right), &[5u8]);
        }
        None => {
            panic!("Should generate elements!");
        }
    };

    match it.next() {
        Some(DoubleOverlappingChunks {
            prev_left,
            left,
            middle,
            right,
            next_right,
        }) => {
            assert_eq!(at(&v, prev_left), &[1u8]);
            assert_eq!(at(&v, left), &[3u8]);
            assert_eq!(at(&v, middle), &[4u8]);
            assert_eq!(at(&v, right), &[5u8]);
            assert_eq!(at(&v, next_right), &[]);
        }
        None => {
            panic!("Should generate elements!");
        }
    };

    assert!(it.next().is_none());
}

#[test]
fn test_three_iterations() {
    let mut v = vec![1u8, 2, 3, 4, 5, 6];
    let mut it = DoubleOverlappingChunksIterator::from_slice(&v, 1);

    match it.next() {
        Some(DoubleOverlappingChunks {
            prev_left,
            left,
            middle,
            right,
            next_right,
        }) => {
            assert_eq!(at(&v, prev_left), &[]);
            assert_eq!(at(&v, left), &[1u8]);
            assert_eq!(at(&v, middle), &[2u8]);
            assert_eq!(at(&v, right), &[3u8]);
            assert_eq!(at(&v, next_right), &[5u8]);
        }
        None => {
            panic!("Should generate elements!");
        }
    };

    match it.next() {
        Some(DoubleOverlappingChunks {
            prev_left,
            left,
            middle,
            right,
            next_right,
        }) => {
            assert_eq!(at(&v, prev_left), &[1u8]);
            assert_eq!(at(&v, left), &[3u8]);
            assert_eq!(at(&v, middle), &[4u8]);
            assert_eq!(at(&v, right), &[5u8]);
            assert_eq!(at(&v, next_right), &[]);
        }
        None => {
            panic!("Should generate elements!");
        }
    };

    match it.next() {
        Some(DoubleOverlappingChunks {
            prev_left,
            left,
            middle,
            right,
            next_right,
        }) => {
            assert_eq!(at(&v, prev_left), &[3u8]);
            assert_eq!(at(&v, left), &[5u8]);
            assert_eq!(at(&v, middle), &[6u8]);
            assert_eq!(at(&v, right), &[]);
            assert_eq!(at(&v, next_right), &[]);
        }
        None => {
            panic!("Should generate elements!");
        }
    };

    assert!(it.next().is_none());
}

#[test]
fn test_independent_mutability() {
    let mut v = vec![1u8, 2, 3, 4, 5, 6, 7];
    {
        let mut it = DoubleOverlappingChunksIterator::from_slice(&v, 1);
        let DoubleOverlappingChunks { middle: m1, .. } = it.next().unwrap();
        let DoubleOverlappingChunks { middle: m2, .. } = it.next().unwrap();
        let DoubleOverlappingChunks { middle: m3, .. } = it.next().unwrap();

        v[m1.0] = 0;
        v[m2.0] = 1;
        v[m3.0] = 2;
    }
    assert_eq!(v, &[1u8, 0, 3, 1, 5, 2, 7])
}

#[test]
fn test_pointer_equality() {
    let mut v = vec![1u8, 2, 3, 4, 5, 6, 7];
    let mut it = DoubleOverlappingChunksIterator::from_slice(&v, 1);

    let DoubleOverlappingChunks {
        left: l1,
        right: r1,
        next_right: nr1,
        ..
    } = it.next().unwrap();
    let DoubleOverlappingChunks {
        prev_left: pl2,
        left: l2,
        right: r2,
        next_right: nr2,
        ..
    } = it.next().unwrap();
    let DoubleOverlappingChunks {
        prev_left: pl3,
        left: l3,
        right: r3,
        ..
    } = it.next().unwrap();

    assert_eq!(l1.0, pl2.0);
    assert_eq!(r1.0, l2.0);
    assert_eq!(nr1.0, r2.0);

    assert_eq!(l2.0, pl3.0);
    assert_eq!(r2.0, l3.0);
    assert_eq!(nr2.0, r3.0);
}

#[test]
fn test_bigger_step() {
    let mut v = vec![1u8, 2, 3, 4, 5, 6, 7, 8, 9, 10, 11, 12, 13, 14, 15, 16];
    let mut it = DoubleOverlappingChunksIterator::from_slice(&v, 3);

    match it.next() {
        Some(DoubleOverlappingChunks {
            prev_left,
            left,
            middle,
            right,
            next_right,
        }) => {
            assert_eq!(at(&v, prev_left), &[]);
            assert_eq!(at(&v, left), &[1u8, 2, 3]);
            assert_eq!(at(&v, middle), &[4u8, 5, 6]);
            assert_eq!(at(&v, right), &[7u8, 8, 9]);
            assert_eq!(at(&v, next_right), &[13u8, 14, 15]);
        }
        None => {
            panic!("Should generate elements!");
        }
    };

    match it.next() {
        Some(DoubleOverlappingChunks {
            prev_left,
            left,
            middle,
            right,
            next_right,
        }) => {
            assert_eq!(at(&v, prev_left), &[1u8, 2, 3]);
            assert_eq!(at(&v, left), &[7u8, 8, 9]);
            assert_eq!(at(&v, middle), &[10u8, 11, 12]);
            assert_eq!(at(&v, right), &[13u8, 14, 15]);
            assert_eq!(at(&v, next_right), &[]);
        }
        None => {
            panic!("Should generate elements!");
        }
    };

    match it.next() {
        Some(DoubleOverlappingChunks {
            prev_left,
            left,
            middle,
            right,
            next_right,
        }) => {
            assert_eq!(at(&v, prev_left), &[7u8, 8, 9]);
            assert_eq!(at(&v, left), &[13u8, 14, 15]);
            assert_eq!(at(&v, middle), &[16u8]);
            assert_eq!(at(&v, right), &[]);
            assert_eq!(at(&v, next_right), &[]);
        }
        None => {
            panic!("Should generate elements!");
        }
    };

    assert!(it.next().is_none());
}

#[test]
fn test_multiple_channels() {
    let mut v = vec![1u8, 2, 3, 2u8, 3, 4, 3u8, 4, 5, 4u8, 5, 6];
    let mut i = Image::from_slice(&v, (3, 2), 2).into_chunks_mut(4, 1);

    let chunk = i.next().unwrap();
    assert_eq!(chunk.x_range.0, 0);
    assert_eq!(chunk.x_range.1, 3);
    assert_eq!(chunk.y_range.0, 0);
    assert_eq!(chunk.y_range.1, 2);
    assert_eq!(chunk.get(&v, 0, 0), 1u8);
    assert_eq!(chunk.get(&v, 0, 1), 2u8);
    assert_eq!(chunk.get(&v, 0, 2), 3u8);
    assert_eq!(chunk.get(&v, 1, 0), 2u8);
    assert_eq!(chunk.get(&v, 1, 1), 3u8);
    assert_eq!(chunk.get(&v, 1, 2), 4u8);

    let chunk = i.next().unwrap();
    assert_eq!(chunk.x_range.0, 0);
    assert_eq!(chunk.x_range.1, 3);
    assert_eq!(chunk.y_range.0, 0);
    assert_eq!(chunk.y_range.1, 2);
    assert_eq!(chunk.get(&v, 0, 0), 3u8);
    assert_eq!(chunk.get(&v, 0, 1), 4u8);
    assert_eq!(chunk.get(&v, 0, 2), 5u8);
    assert_eq!(chunk.get(&v, 1, 0), 4u8);
    assert_eq!(chunk.get(&v, 1, 1), 5u8);
    assert_eq!(chunk.get(&v, 1, 2), 6u8);

    assert!(i.next().is_none(), "Should not generate elements!");
}

#[test]
fn test_chunks_division() {
    let mut v = vec![
        1u8, 2, 3, 4, 5, 2u8, 3, 4, 5, 6, 3u8, 4, 5, 6, 7, 4u8, 5, 6, 7, 8, 5u8, 6, 7, 8, 9,
    ];
    let mut i = Image::from_slice(&v, (5, 5), 1).into_chunks_mut(2, 2);

    let chunk = i.next().unwrap();
    assert_eq!(chunk.x_range.1 - chunk.x_range.0, 2);
    assert_eq!(chunk.y_range.1 - chunk.y_range.0, 2);
    assert_eq!(chunk.get(&v, 0, 0), 1u8);
    assert_eq!(chunk.get(&v, 0, 1), 2u8);
    assert_eq!(chunk.get(&v, 1, 0), 2u8);
    assert_eq!(chunk.get(&v, 1, 1), 3u8);

    let chunk = i.next().unwrap();
    assert_eq!(chunk.x_range.1 - chunk.x_range.0, 2);
    assert_eq!(chunk.y_range.1 - chunk.y_range.0, 2);
    assert_eq!(chunk.x_range.0, 2);
    assert_eq!(chunk.x_range.1, 4);
    assert_eq!(chunk.y_range.0, 0);
    assert_eq!(chunk.y_range.1, 2);
    assert_eq!(chunk.get(&v, 0, 2), 3u8);
    assert_eq!(chunk.get(&v, 0, 3), 4u8);
    assert_eq!(chunk.get(&v, 1, 2), 4u8);
    assert_eq!(chunk.get(&v, 1, 3), 5u8);

    let chunk = i.next().unwrap();
    assert_eq!(chunk.x_range.1 - chunk.x_range.0, 1);
    assert_eq!(chunk.y_range.1 - chunk.y_range.0, 2);
    assert_eq!(chunk.get(&v, 0, 4), 5u8);
    assert_eq!(chunk.get(&v, 1, 4), 6u8);

    let chunk = i.next().unwrap();
    assert_eq!(chunk.x_range.0, 0);
    assert_eq!(chunk.x_range.1, 2);
    assert_eq!(chunk.y_range.0, 2);
    assert_eq!(chunk.y_range.1, 4);
    assert_eq!(chunk.x_range.1 - chunk.x_range.0, 2);
    assert_eq!(chunk.y_range.1 - chunk.y_range.0, 2);
    assert_eq!(chunk.get(&v, 2, 0), 3u8);
    assert_eq!(chunk.get(&v, 2, 1), 4u8);
    assert_eq!(chunk.get(&v, 3, 0), 4u8);
    assert_eq!(chunk.get(&v, 3, 1), 5u8);

    let chunk = i.next().unwrap();
    assert_eq!(chunk.x_range.1 - chunk.x_range.0, 2);
    assert_eq!(chunk.y_range.1 - chunk.y_range.0, 2);
    assert_eq!(chunk.get(&v, 2, 2), 5u8);
    assert_eq!(chunk.get(&v, 2, 3), 6u8);
    assert_eq!(chunk.get(&v, 3, 2), 6u8);
    assert_eq!(chunk.get(&v, 3, 3), 7u8);

    let chunk = i.next().unwrap();
    assert_eq!(chunk.x_range.1 - chunk.x_range.0, 1);
    assert_eq!(chunk.y_range.1 - chunk.y_range.0, 2);
    assert_eq!(chunk.get(&v, 2, 4), 7u8);
    assert_eq!(chunk.get(&v, 3, 4), 8u8);

    let chunk = i.next().unwrap();
    assert_eq!(chunk.x_range.1 - chunk.x_range.0, 2);
    assert_eq!(chunk.y_range.1 - chunk.y_range.0, 1);
    assert_eq!(chunk.get(&v, 4, 0), 5u8);
    assert_eq!(chunk.get(&v, 4, 1), 6u8);

    let chunk = i.next().unwrap();
    assert_eq!(chunk.x_range.1 - chunk.x_range.0, 2);
    assert_eq!(chunk.y_range.1 - chunk.y_range.0, 1);
    assert_eq!(chunk.get(&v, 4, 2), 7u8);
    assert_eq!(chunk.get(&v, 4, 3), 8u8);

    let chunk = i.next().unwrap();
    assert_eq!(chunk.x_range.1 - chunk.x_range.0, 1);
    assert_eq!(chunk.y_range.1 - chunk.y_range.0, 1);
    assert_eq!(chunk.get(&v, 4, 4), 9u8);

    assert!(i.next().is_none(), "Should not generate elements!");
}

#[test]
fn test_owned_chunk_all_can_be_read() {
    let mut v = vec![1u8, 2, 3, 2u8, 3, 4, 3u8, 4, 5];
    let mut i = Image::from_slice(&v, (3, 3), 1).into_chunks_mut(3, 1);
    let chunk = i.next().unwrap();
    assert_eq!(chunk.get(&v, 0, 0), 1u8);
    assert_eq!(chunk.get(&v, 0, 1), 2u8);
    assert_eq!(chunk.get(&v, 0, 2), 3u8);
    assert_eq!(chunk.get(&v, 1, 0), 2u8);
    assert_eq!(chunk.get(&v, 1, 1), 3u8);
    assert_eq!(chunk.get(&v, 1, 2), 4u8);
    assert_eq!(chunk.get(&v, 2, 0), 3u8);
    assert_eq!(chunk.get(&v, 2, 1), 4u8);
    assert_eq!(chunk.get(&v, 2, 2), 5u8);
}

#[test]
fn test_owned_chunk_write_to_mutable() {
    let mut v = vec![
        1u8, 2, 3, 4, 5, 2u8, 3, 4, 5, 6, 3u8, 4, 5, 6, 7, 4u8, 5, 6, 7, 8, 5u8, 6, 7, 8, 9,
    ];
    {
        let mut i = Image::from_slice(&v, (5, 5), 1).into_chunks_mut(6, 2);
        let chunk = i.next().unwrap();
        chunk.set(&mut v, 0, 0, 0);
        chunk.set(&mut v, 0, 2, 0);
        chunk.set(&mut v, 2, 0, 0);
        chunk.set(&mut v, 2, 2, 0);
        chunk.set(&mut v, 2, 4, 0);
        chunk.set(&mut v, 4, 2, 0);
    }

    let expected = vec![
        0u8, 2, 0, 4, 5, 2u8, 3, 4, 5, 6, 0u8, 4, 0, 6, 0, 4u8, 5, 6, 7, 8, 5u8, 6, 0, 8, 9,
    ];

    assert_eq!(v, expected);
}

#[test]
fn test_test_not_enough_chunks() {
    let mut v = vec![1u8, 2];
    let mut iter = OverlappingChunksIterator::from_slice(&v, 2);

    assert!(iter.next().is_none());
}

#[test]
fn test_test_minimal_chunks() {
    let mut v = vec![1u8, 2, 3, 4];
    let mut iter = OverlappingChunksIterator::from_slice(&v, 2);

    match iter.next() {
        Some((l, m, r)) => {
            assert_eq!(*at(&v, l), [1u8, 2]);
            assert_eq!(*at(&v, m), [3u8, 4]);
            assert_eq!(*at(&v, r), []);
        }
        None => {
            panic!("Iterator should produce element");
        }
    }
}

#[test]
fn test_incomplete_last_slice() {
    let mut v = vec![1u8, 2, 3, 4, 5];
    let mut iter = OverlappingChunksIterator::from_slice(&v, 2);

    match iter.next() {
        Some((l, m, r)) => {
            assert_eq!(*at(&v, l), [1u8, 2]);
            assert_eq!(*at(&v, m), [3u8, 4]);
            assert_eq!(*at(&v, r), [5u8]);
        }
        None => {
            panic!("Iterator should produce element");
        }
    }
}

#[test]
fn test_test_two_iterations() {
    let mut v = vec![1u8, 2, 3, 4, 5, 6, 7, 8];
    let mut iter = OverlappingChunksIterator::from_slice(&v, 2);

    match iter.next() {
        Some((l, m, r)) => {
            assert_eq!(*at(&v, l), [1u8, 2]);
            assert_eq!(*at(&v, m), [3u8, 4]);
            assert_eq!(*at(&v, r), [5u8, 6]);
        }
        None => {
            panic!("Iterator should produce element");
        }
    }
    match iter.next() {
        Some((l, m, r)) => {
            assert_eq!(*at(&v, l), [5u8, 6]);
            assert_eq!(*at(&v, m), [7u8, 8]);
            assert_eq!(*at(&v, r), []);
        }
        None => {
            panic!("Iterator should produce element");
        }
    }
    match iter.next() {
        Some(_) => {
            panic!("Iterator should not produce element");
        }
        None => {}
    }
}

#[test]
fn test_test_independent_mutability() {
    let mut v = vec![1u8, 2, 3, 4];
    {
        let mut it = OverlappingChunksIterator::from_slice(&v, 1);
        let (_, m1, _) = it.next().unwrap();
        let (_, m2, _) = it.next().unwrap();

        v[m1.0] = 0;
        v[m2.0] = 1;
    }
    assert_eq!(v, &[1u8, 0, 3, 1])
}

#[test]
fn test_test_pointer_equality() {
    let mut v = vec![1u8, 2, 3, 4, 5, 6, 7];
    let mut it = OverlappingChunksIterator::from_slice(&v, 1);

    let (_l, _, r1) = it.next().unwrap();
    let (l2, _, r2) = it.next().unwrap();
    let (l3, _, _r) = it.next().unwrap();

    assert_eq!(r1.0, l2.0);
    assert_eq!(r2.0, l3.0);
}

#[test]
fn test_chunk_generation() {
    let data = vec![1, 2, 3, 4, 5, 6, 7, 8, 9_u8];
    let chunk_sizes = vec![1, 3, 5];

    let mut it = VariableChunksIterator::new(&data, &chunk_sizes);

    assert_eq!(at(&data, it.next().unwrap()), &[1]);
    assert_eq!(at(&data, it.next().unwrap()), &[2, 3, 4]);
    assert_eq!(at(&data, it.next().unwrap()), &[5, 6, 7, 8, 9]);
    assert!(it.next().is_none(), "Should not generate elements!");
}

#[test]
fn test_last_chunk_truncated() {
    let data = vec![1, 2, 3];
    let chunk_sizes = vec![1, 10];

    let mut it = VariableChunksIterator::new(&data, &chunk_sizes);

    assert_eq!(at(&data, it.next().unwrap()), &[1]);
    assert_eq!(at(&data, it.next().unwrap()), &[2, 3]);
    assert!(it.next().is_none(), "Should not generate elements!");
}

#[test]
fn test_variable_not_enough_chunks() {
    let data = vec![42];
    let chunk_sizes = vec![1, 10, 55];

    let mut it = VariableChunksIterator::new(&data, &chunk_sizes);

    assert_eq!(at(&data, it.next().unwrap()), &[42]);
    assert!(it.next().is_none(), "Should not generate elements!");
}

#[test]
fn test_should_not_generate_remainder() {
    let data = vec![1, 2, 3, 4];
    let chunk_sizes = vec![1, 2];

    let mut it = VariableChunksIterator::new(&data, &chunk_sizes);

    assert_eq!(at(&data, it.next().unwrap()), &[1]);
    assert_eq!(at(&data, it.next().unwrap()), &[2, 3]);
    assert!(it.next().is_none(), "Should not generate elements!");
}


#[test]
fn test_walks_visit_odd_multiples_of_the_step() {
    for len in 1usize..40 {
        for s in 1usize..len {
            let v = vec![0u8; len];
            let expected: Vec<usize> = (0..).map(|k| (2 * k + 1) * s).take_while(|m| *m < len).collect();
            assert_eq!(expected.len(), ((len + s - 1) / s) / 2);

            let mut it = DoubleOverlappingChunksIterator::from_slice(&v, s);
            let mut middles = Vec::new();
            while let Some(c) = it.next() {
                middles.push(c.middle.0);
            }
            assert_eq!(middles, expected);
            assert!(it.next().is_none());

            let mut it = OverlappingChunksIterator::from_slice(&v, s);
            let mut middles = Vec::new();
            while let Some((_, middle, _)) = it.next() {
                middles.push(middle.0);
            }
            assert_eq!(middles, expected);
        }
    }
}

#[test]
fn test_image_chunks_tile_the_image() {
    let (w, h, n) = (7usize, 5usize, 2usize);
    let data = vec![0i16; w * h * n];
    for bs in 1usize..9 {
        let mut count = vec![0u32; w * h * n];
        let mut chunks = Image::from_slice(&data, (w, h), n).into_chunks_mut(bs, 1);
        while let Some(c) = chunks.next() {
            for y in c.y_range.0..c.y_range.1 {
                for x in c.x_range.0..c.x_range.1 {
                    count[c.channel * w * h + y * w + x] += 1;
                }
            }
        }
        assert!(count.iter().all(|k| *k == 1));
    }
}
