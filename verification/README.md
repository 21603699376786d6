# VisioMatch

Real-time face recognition and hand tracking, with a verified core.

- `src/` is the library. Verus proves it: every function's contract says what it
  returns or changes.
- `app/` is the program around it: camera, window, files, and OpenCV's image
  processing and inference.
- `tests/` runs the library on concrete values.

## The library

| Module | What it holds |
|--------|---------------|
| `rounding`, `arith`, `float`, `ieee` | IEEE 754 arithmetic on bit patterns, correctly rounded |
| `big`, `literal`, `numerals` | Numbers as decimal texts: written with fixed digits, read to the nearest |
| `text`, `escape`, `json`, `layout`, `storage` | The embedding database as a JSON text, in any layout |
| `embeddings`, `arcface`, `length` | Embeddings: similarity, average, the closest identity, and what rounding does to lengths |
| `tracker` | Stable face tracks across frames |
| `detect`, `geometry` | Rectangles, and what is asked of the face detector |
| `recognize`, `enroll`, `hands`, `setup`, `camera`, `cli` | What the modes of operation decide and show |

Numbers are correctly rounded, so the contracts can say which number comes out:
the one nearest to the exact result, and of two as near the one of even encoding.

What holds of the library as a whole is stated in the proof functions whose
names begin with `law_`.
