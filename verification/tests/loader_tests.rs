use hmm_tagger::loader::{fmt_usize, Loader, Mapper, Sentence};

#[test]
fn mapper_assigns_dense_ids() {
    let mut m = Mapper::empty();
    assert_eq!(m.count(), None);
    assert_eq!(m.update("alpha"), 0);
    assert_eq!(m.update("beta"), 1);
    assert_eq!(m.update("alpha"), 0);
    assert_eq!(m.update("gamma"), 2);
    assert_eq!(m.count(), Some(3));
}

#[test]
fn load_splits_sentences_on_blank_lines() {
    let l = Loader::load("a\tA\nb\tB\n\nc\tA\n\n");
    assert_eq!(l.data.len(), 2);
    assert_eq!(l.data[0].tokens, vec![(0usize, 0usize), (1, 1)]);
    assert_eq!(l.data[1].tokens, vec![(2usize, 0usize)]);
    assert_eq!(l.mapper_w.count(), Some(3));
    assert_eq!(l.mapper_t.count(), Some(2));
}

#[test]
fn load_unlabelled_lines_get_tag_zero() {
    let l = Loader::load("a\nb\n\n");
    assert_eq!(l.data.len(), 1);
    assert_eq!(l.data[0].tokens, vec![(0usize, 0usize), (1, 0)]);
    assert_eq!(l.mapper_t.count(), None);
}

#[test]
fn load_drops_an_unterminated_sentence() {
    // No blank line and no trailing newline: nothing is finished.
    let l = Loader::load("a\tA");
    assert_eq!(l.data.len(), 0);
    // A trailing newline yields the empty piece that finishes it.
    let l2 = Loader::load("a\tA\n");
    assert_eq!(l2.data.len(), 1);
}

#[test]
fn load_ignores_extra_fields() {
    let l = Loader::load("a\tA\textra\n\n");
    assert_eq!(l.data[0].tokens, vec![(0usize, 0usize)]);
    assert_eq!(l.mapper_w.count(), Some(1));
    assert_eq!(l.mapper_t.count(), Some(1));
}

#[test]
fn load_from_loader_keeps_ids() {
    let train = Loader::load("a\tA\nb\tB\n\n");
    let eval = Loader::load_from_loader(&train, "b\tC\nd\tA\n\n");
    // b and A keep their training ids; C and d get fresh ones.
    assert_eq!(eval.data[0].tokens, vec![(1usize, 2usize), (2, 0)]);
    assert_eq!(eval.mapper_w.count(), Some(3));
    assert_eq!(eval.mapper_t.count(), Some(3));
    // The new loader holds only the new text's sentences.
    assert_eq!(eval.data.len(), 1);
}

#[test]
fn fmt_usize_renders_decimal() {
    assert_eq!(fmt_usize(0), "0");
    assert_eq!(fmt_usize(7), "7");
    assert_eq!(fmt_usize(10), "10");
    assert_eq!(fmt_usize(90210), "90210");
}

#[test]
fn sentence_print_renders_ids_and_tokens() {
    let l = Loader::load("a\tA\nb\tB\n\n");
    let s = l.data[0].print(&l.mapper_w, &l.mapper_t);
    assert_eq!(s, "0\t0\t(a, A)\n1\t1\t(b, B)\n");
}

#[test]
fn loader_print_renders_every_sentence() {
    let l = Loader::load("a\tA\n\nb\tB\n\n");
    assert_eq!(l.print(), "0\t0\t(a, A)\n1\t1\t(b, B)\n");
}

#[test]
fn sentence_struct_is_plain_data() {
    let s = Sentence { tokens: vec![(3, 1)] };
    assert_eq!(s.tokens[0], (3, 1));
}
