use tscn::{shown, MAX_SHOWN};

fn count(s: &str) -> usize {
    s.chars().count()
}

#[test]
fn a_value_within_the_bound_is_shown_whole() {
    assert_eq!(
        shown("SubResource(\"RectangleShape2D_gdm0\")"),
        "SubResource(\"RectangleShape2D_gdm0\")"
    );
    assert_eq!(shown("Vector2(1,\n  2)"), "Vector2(1, 2)");
}

#[test]
fn a_long_string_is_replaced_and_its_type_kept() {
    let data = "A".repeat(16340);
    let out = shown(&format!("PackedByteArray(\"{data}\")"));
    assert_eq!(out, "PackedByteArray(\"...\") (16340 chars elided)");
}

#[test]
fn an_id_across_the_cut_is_kept_whole() {
    let id = "AnimationNodeStateMachineTransition_gdm10";
    let value = format!("Array[RectangleShape2D]([SubResource(\"{id}\"), {}])", "1, ".repeat(60));
    let out = shown(&value);
    assert!(out.contains(&format!("SubResource(\"{id}\")")), "{out}");
    assert!(out.ends_with("chars elided)"), "{out}");
    assert!(count(&out) <= MAX_SHOWN, "{out}");
}

#[test]
fn an_unquoted_value_is_cut_at_an_item_boundary() {
    let value = format!(
        "PackedFloat32Array({})",
        (0..60).map(|n| n.to_string()).collect::<Vec<_>>().join(", ")
    );
    let out = shown(&value);
    assert!(out.starts_with("PackedFloat32Array(0, 1, 2,"), "{out}");
    assert!(out.contains(", ... ("), "cut between items: {out}");
    assert!(count(&out) <= MAX_SHOWN, "{out}");
}

/// A seeded generator, so a failure reproduces from the seed.
struct Rng(u64);

impl Rng {
    fn next(&mut self) -> u64 {
        self.0 = self.0.wrapping_mul(6364136223846793005).wrapping_add(1442695040888963407);
        self.0 >> 33
    }

    fn below(&mut self, n: usize) -> usize {
        (self.next() % n as u64) as usize
    }

    fn text(&mut self, len: usize, alphabet: &[char]) -> String {
        (0..len).map(|_| alphabet[self.below(alphabet.len())]).collect()
    }
}

const ID: &[char] = &['a', 'b', 'c', '_', '1', '2', 'S', 'h', 'a', 'p', 'e'];
const JUNK: &[char] = &['0', '1', '9', ',', ' ', '.', '-', 'x', '(', ')', '[', ']'];
const TEXT: &[char] = &['A', 'z', '0', ' ', '\\', '"', ',', '\n', 'é'];

#[test]
fn every_rendering_stays_within_the_bound() {
    let mut rng = Rng(0x5eed);
    for case in 0..4000 {
        let value = match case % 5 {
            0 => {
                let n = rng.below(5000);
                rng.text(n, JUNK)
            }
            1 => {
                let n = rng.below(5000);
                format!("PackedByteArray(\"{}\")", rng.text(n, TEXT))
            }
            2 => {
                let n = rng.below(100);
                format!("SubResource(\"{}\")", rng.text(n, ID))
            }
            3 => {
                let n = rng.below(40);
                let refs: Vec<String> = (0..n)
                    .map(|_| {
                        let len = 1 + rng.below(30);
                        format!("ExtResource(\"{}\")", rng.text(len, ID))
                    })
                    .collect();
                format!("Array[Resource]([{}])", refs.join(", "))
            }
            _ => {
                let (a, b) = (rng.below(300), rng.below(300));
                format!("\"{}\" {}", rng.text(a, TEXT), rng.text(b, JUNK))
            }
        };
        let out = shown(&value);
        assert!(count(&out) <= MAX_SHOWN, "case {case}: {} chars: {out}", count(&out));
        let flat = value.split_whitespace().collect::<Vec<_>>().join(" ");
        if count(&flat) <= MAX_SHOWN {
            assert_eq!(out, flat, "case {case}");
        }
        if case % 5 == 2 {
            assert_eq!(out, flat, "an id is never cut: case {case}");
        }
    }
}

#[test]
fn a_short_value_is_elided_to_its_words() {
    assert_eq!(tscn::elide("Vector2(  1,\n\t2 )"), "Vector2( 1, 2 )");
}

#[test]
fn a_long_value_is_cut_with_an_ellipsis() {
    let long = "x".repeat(100);
    let e = tscn::elide(&long);
    assert_eq!(e.chars().count(), tscn::MAX_ELIDED);
    assert_eq!(e, format!("{}...", "x".repeat(69)));
    let exact = "y".repeat(72);
    assert_eq!(tscn::elide(&exact), exact);
}
