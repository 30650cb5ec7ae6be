use glyphwire::logo::{emblem, emblem_pixels, wordmark_glyph, wordmark_letters, wordmark_pixels, Ink};

#[test]
fn artwork_has_valid_pixel_dimensions_and_glyphs() {
    for row in emblem() {
        assert_eq!(row.len(), 16);
        assert!(row.bytes().all(|pixel| b".CM".contains(&pixel)));
    }
    for character in "GLYPH//WIRE".chars() {
        let rows = wordmark_glyph(character).unwrap();
        assert!(rows.iter().all(|row| *row < 32));
    }
}

#[test]
fn logo_paints_crisp_theme_pixels_inside_its_bounds() {
    let emblem = emblem_pixels();
    let wordmark = wordmark_pixels();
    for pixel in &emblem {
        assert!(pixel.x < 16 && pixel.y < 16);
    }
    for pixel in &wordmark {
        assert!(pixel.x < 69 && pixel.y < 7);
    }
    let inks: Vec<Ink> = emblem.iter().chain(wordmark.iter()).map(|pixel| pixel.ink).collect();
    for ink in [Ink::Cyan, Ink::Magenta, Ink::Text] {
        assert!(inks.contains(&ink));
    }
}

#[test]
fn emblem_pixels_follow_the_artwork() {
    let pixels = emblem_pixels();
    let rows = emblem();
    let mut expected = 0;
    for (y, row) in rows.iter().enumerate() {
        for (x, byte) in row.bytes().enumerate() {
            if byte != b'.' {
                let ink = if byte == b'C' { Ink::Cyan } else { Ink::Magenta };
                assert_eq!(pixels[expected].x, x);
                assert_eq!(pixels[expected].y, y);
                assert_eq!(pixels[expected].ink, ink);
                expected += 1;
            }
        }
    }
    assert_eq!(pixels.len(), expected);
    assert_eq!(pixels[0].x, 3);
    assert_eq!(pixels[0].y, 0);
}

#[test]
fn wordmark_letters_are_spaced_by_six_with_gaps_between_words() {
    let letters = wordmark_letters();
    let placed: Vec<(char, usize)> = letters.iter().map(|l| (l.letter, l.column)).collect();
    assert_eq!(
        placed,
        vec![
            ('G', 0), ('L', 6), ('Y', 12), ('P', 18), ('H', 24),
            ('/', 32), ('/', 38),
            ('W', 46), ('I', 52), ('R', 58), ('E', 64),
        ]
    );
    assert_eq!(letters[5].ink, Ink::Magenta);
    assert_eq!(letters[10].ink, Ink::Text);
    assert!(wordmark_glyph('Z').is_none());
}

#[test]
fn wordmark_pixels_light_the_letter_bits() {
    let pixels = wordmark_pixels();
    // 'G' starts with row 14 = 0b01110: columns 1, 2, 3 of row 0.
    assert_eq!((pixels[0].x, pixels[0].y), (1, 0));
    assert_eq!((pixels[1].x, pixels[1].y), (2, 0));
    assert_eq!((pixels[2].x, pixels[2].y), (3, 0));
    let ones: u32 = "GLYPH//WIRE"
        .chars()
        .map(|c| wordmark_glyph(c).unwrap().iter().map(|row| row.count_ones()).sum::<u32>())
        .sum();
    assert_eq!(pixels.len() as u32, ones);
}
