use bismuth::{from_fractal_plant, Drawing, LSystem, Motion, Step, TurtleError};

fn walk(s: &str) -> Result<Drawing, TurtleError> {
    from_fractal_plant(s.to_string())
}

fn step(origin: usize, motion: Motion) -> Step {
    Step { origin, motion }
}

/// The states of a drawing as (x, y, heading), with the given step length and turn angle.
fn states(drawing: &Drawing, start: (f32, f32, f32), length: f32, turn: f32) -> Vec<(f32, f32, f32)> {
    let mut all = vec![start];
    for s in &drawing.steps {
        let (x, y, theta) = all[s.origin];
        all.push(match s.motion {
            Motion::Forward => (x + length * theta.cos(), y + length * theta.sin(), theta),
            Motion::TurnNegative => (x, y, theta - turn),
            Motion::TurnPositive => (x, y, theta + turn),
        });
    }
    all
}

#[test]
fn test_walk_of_empty_string_draws_nothing() {
    let drawing = walk("").unwrap();
    assert!(drawing.steps.is_empty());
    assert!(drawing.vertices.is_empty());
}

#[test]
fn test_placeholder_draws_nothing() {
    let drawing = walk("XXX").unwrap();
    assert!(drawing.steps.is_empty());
    assert!(drawing.vertices.is_empty());
}

#[test]
fn test_forward_draws_one_segment() {
    let drawing = walk("F").unwrap();
    assert_eq!(drawing.steps, vec![step(0, Motion::Forward)]);
    assert_eq!(drawing.vertices, vec![0, 1]);
}

#[test]
fn test_turns_make_states_and_no_segments() {
    let drawing = walk("-+").unwrap();
    assert_eq!(
        drawing.steps,
        vec![step(0, Motion::TurnNegative), step(1, Motion::TurnPositive)]
    );
    assert!(drawing.vertices.is_empty());
}

#[test]
fn test_segments_are_not_joined() {
    let drawing = walk("FF").unwrap();
    assert_eq!(drawing.vertices, vec![0, 1, 1, 2]);
}

#[test]
fn test_branching_walk() {
    let drawing = walk("F+F[F]--[F]").unwrap();
    assert_eq!(
        drawing.steps,
        vec![
            step(0, Motion::Forward),
            step(1, Motion::TurnPositive),
            step(2, Motion::Forward),
            step(3, Motion::Forward),
            step(3, Motion::TurnNegative),
            step(5, Motion::TurnNegative),
            step(6, Motion::Forward),
        ]
    );
    // One segment for each `F`.
    assert_eq!(drawing.vertices, vec![0, 1, 2, 3, 3, 4, 6, 7]);
    assert_eq!(drawing.vertices.len() / 2, 4);
}

#[test]
fn test_branch_starts_and_ends_at_the_state_before_it() {
    let drawing = walk("F+F[F]--[F]").unwrap();
    let all = states(&drawing, (-1.0, -1.0, 45.0), 0.05, 0.43);
    // First branch: opened in state 3; its segment starts there, and the turn after
    // it starts there again.
    assert_eq!(drawing.vertices[4], 3);
    assert_eq!(drawing.steps[4].origin, 3);
    assert_eq!(all[drawing.vertices[4]], all[3]);
    // Second branch: opened in state 6.
    assert_eq!(drawing.vertices[6], 6);
    assert_eq!(all[6].0, all[3].0);
    assert_eq!(all[6].1, all[3].1);
    assert_eq!(all[6].2, 45.0f32 + 0.43 - 0.43 - 0.43);
    // The first segment runs from the start along the first heading.
    let first = all[drawing.vertices[1]];
    assert_eq!(all[drawing.vertices[0]], (-1.0, -1.0, 45.0));
    assert_eq!(first.0, -1.0 + 0.05 * 45.0f32.cos());
    assert_eq!(first.1, -1.0 + 0.05 * 45.0f32.sin());
}

#[test]
fn test_state_after_branch_is_the_saved_one() {
    let drawing = walk("F[+F-F]F").unwrap();
    assert_eq!(drawing.steps[5], step(1, Motion::Forward));
    assert_eq!(drawing.vertices, vec![0, 1, 2, 3, 4, 5, 1, 6]);
}

#[test]
fn test_nested_branches_return_in_order() {
    let drawing = walk("F[F[F]F]F").unwrap();
    assert_eq!(drawing.vertices, vec![0, 1, 1, 2, 2, 3, 2, 4, 1, 5]);
}

#[test]
fn test_open_branch_at_the_end_is_no_error() {
    let drawing = walk("F[F").unwrap();
    assert_eq!(drawing.vertices, vec![0, 1, 1, 2]);
}

#[test]
fn test_pop_with_empty_stack() {
    assert_eq!(walk("]").unwrap_err(), TurtleError::UnbalancedBranch);
}

#[test]
fn test_unrecognized_symbol_is_named() {
    assert_eq!(walk("Q").unwrap_err(), TurtleError::UnrecognizedSymbol('Q'));
}

#[test]
fn test_more_pops_than_pushes_is_unbalanced() {
    for s in ["F]", "[F]]", "[]]F", "[[F]F]]FFF", "][", "F+F-]X"] {
        assert_eq!(walk(s).unwrap_err(), TurtleError::UnbalancedBranch);
    }
}

#[test]
fn test_first_fault_decides_the_error() {
    assert_eq!(walk("Q]").unwrap_err(), TurtleError::UnrecognizedSymbol('Q'));
    assert_eq!(walk("]Q").unwrap_err(), TurtleError::UnbalancedBranch);
    assert_eq!(walk("FAB").unwrap_err(), TurtleError::UnrecognizedSymbol('A'));
    assert_eq!(walk("[F]x]").unwrap_err(), TurtleError::UnrecognizedSymbol('x'));
}

#[test]
fn test_unicode_minus_is_no_command() {
    assert_eq!(
        walk("F\u{2212}F").unwrap_err(),
        TurtleError::UnrecognizedSymbol('\u{2212}')
    );
}

#[test]
fn test_vertex_count_is_even_and_twice_the_forward_count() {
    for s in ["", "F", "FF+F", "F[F]F", "X[-F][+F]FX", "[[[[F", "+-+-"] {
        let drawing = walk(s).unwrap();
        let forwards = s.chars().filter(|c| *c == 'F').count();
        assert_eq!(drawing.vertices.len() % 2, 0);
        assert_eq!(drawing.vertices.len(), 2 * forwards);
    }
}

#[test]
fn test_every_segment_is_a_forward_step() {
    let drawing = walk("F[-X][X]F[-X]+FX").unwrap();
    for pair in drawing.vertices.chunks(2) {
        assert!(pair[1] >= 1 && pair[1] <= drawing.steps.len());
        assert_eq!(drawing.steps[pair[1] - 1], step(pair[0], Motion::Forward));
    }
    for (i, s) in drawing.steps.iter().enumerate() {
        assert!(s.origin <= i);
    }
}

#[test]
fn test_fractal_plant_walks_after_three_generations() {
    let mut lsys = LSystem::new("X".to_string());
    lsys.add('F');
    lsys.add_constant('+');
    lsys.add_constant('-');
    lsys.add_constant('[');
    lsys.add_constant(']');
    lsys.set_rule('X', "F[-X][X]F[-X]+FX");
    lsys.set_rule('F', "FF");
    let third = lsys.next().next().next().to_string();
    let drawing = walk(&third).unwrap();
    let forwards = third.chars().filter(|c| *c == 'F').count();
    assert_eq!(drawing.vertices.len(), 2 * forwards);
    assert_eq!(forwards, 84);
}
